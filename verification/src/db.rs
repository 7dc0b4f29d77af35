//! The picture/word association store.
//!
//! Pictures are identified by their name, words by their text, and an
//! association ties one picture to one word.  At most one association exists
//! per (picture, word) pair.  Associations are kept in the order they were
//! created, so the last association carrying a word points at the picture
//! most recently tagged with it.

use vstd::prelude::*;

use crate::text::{dec_str, join_sp, split_ws, split_ws_str, str_eq, u64_to_string, join_spaces};

verus! {

/// One association: `pic` is tagged with `word`.
#[verifier::ext_equal]
pub ghost struct AssocModel {
    pub pic: Seq<char>,
    pub word: Seq<char>,
}

/// The abstract state of the store: the picture rows, and the associations
/// in creation order (oldest first).
#[verifier::ext_equal]
pub ghost struct StoreModel {
    pub pics: Seq<Seq<char>>,
    pub assocs: Seq<AssocModel>,
}

/// The store holding no pictures and no associations.
pub open spec fn empty_store() -> StoreModel {
    StoreModel { pics: Seq::empty(), assocs: Seq::empty() }
}

/// Some association in `assocs` ties `pic` to `word`.
pub open spec fn has_assoc(assocs: Seq<AssocModel>, pic: Seq<char>, word: Seq<char>) -> bool {
    exists|i: int|
        0 <= i < assocs.len() && assocs[i].pic == pic && assocs[i].word == word
}

/// Some association in `assocs` mentions `pic`.
pub open spec fn has_pic_assoc(assocs: Seq<AssocModel>, pic: Seq<char>) -> bool {
    exists|i: int| 0 <= i < assocs.len() && assocs[i].pic == pic
}

/// No (picture, word) pair occurs twice.
pub open spec fn pair_unique(assocs: Seq<AssocModel>) -> bool {
    forall|i: int, j: int|
        0 <= i < j < assocs.len() ==> !(assocs[i].pic == assocs[j].pic && assocs[i].word
            == assocs[j].word)
}

/// The store's invariant: picture names are unique, (picture, word) pairs
/// are unique, and every association points at an existing picture row.
pub open spec fn store_wf(m: StoreModel) -> bool {
    &&& forall|i: int, j: int| 0 <= i < j < m.pics.len() ==> m.pics[i] != m.pics[j]
    &&& pair_unique(m.assocs)
    &&& forall|i: int| 0 <= i < m.assocs.len() ==> m.pics.contains(#[trigger] m.assocs[i].pic)
}

/// `m` with a row for `pic`, created if absent.
pub open spec fn ensure_pic(m: StoreModel, pic: Seq<char>) -> StoreModel {
    if m.pics.contains(pic) {
        m
    } else {
        StoreModel { pics: m.pics.push(pic), assocs: m.assocs }
    }
}

/// `m` with the association (`pic`, `word`), created if absent.
pub open spec fn add_assoc(m: StoreModel, pic: Seq<char>, word: Seq<char>) -> StoreModel {
    if has_assoc(m.assocs, pic, word) {
        m
    } else {
        StoreModel { pics: m.pics, assocs: m.assocs.push(AssocModel { pic, word }) }
    }
}

/// `m` with an association from `pic` to each word of `ws`, in order.
pub open spec fn add_assocs(m: StoreModel, pic: Seq<char>, ws: Seq<Seq<char>>) -> StoreModel
    decreases ws.len(),
{
    if ws.len() == 0 {
        m
    } else {
        add_assocs(add_assoc(m, pic, ws[0]), pic, ws.drop_first())
    }
}

/// What `append_word` leaves behind: the picture row exists and `pic` is
/// tied to every word of `ws`, each pair at most once.
pub open spec fn append_spec(m: StoreModel, pic: Seq<char>, ws: Seq<Seq<char>>) -> StoreModel {
    add_assocs(ensure_pic(m, pic), pic, ws)
}

/// `assocs` without the associations of `pic`, order kept.
pub open spec fn assocs_without(assocs: Seq<AssocModel>, pic: Seq<char>) -> Seq<AssocModel>
    decreases assocs.len(),
{
    if assocs.len() == 0 {
        Seq::empty()
    } else {
        let rest = assocs_without(assocs.drop_last(), pic);
        if assocs.last().pic == pic {
            rest
        } else {
            rest.push(assocs.last())
        }
    }
}

/// What `delete_pic` leaves behind: the associations of `pic` are gone, the
/// picture rows are untouched.
pub open spec fn delete_spec(m: StoreModel, pic: Seq<char>) -> StoreModel {
    StoreModel { pics: m.pics, assocs: assocs_without(m.assocs, pic) }
}

/// The pictures tagged with `word`, in association order (oldest first).
pub open spec fn pics_of(assocs: Seq<AssocModel>, word: Seq<char>) -> Seq<Seq<char>>
    decreases assocs.len(),
{
    if assocs.len() == 0 {
        Seq::empty()
    } else {
        let rest = pics_of(assocs.drop_last(), word);
        if assocs.last().word == word {
            rest.push(assocs.last().pic)
        } else {
            rest
        }
    }
}

/// The words tagging `pic`, in association order (oldest first).
pub open spec fn words_of(assocs: Seq<AssocModel>, pic: Seq<char>) -> Seq<Seq<char>>
    decreases assocs.len(),
{
    if assocs.len() == 0 {
        Seq::empty()
    } else {
        let rest = words_of(assocs.drop_last(), pic);
        if assocs.last().pic == pic {
            rest.push(assocs.last().word)
        } else {
            rest
        }
    }
}

/// The picture rows that still carry at least one association.
pub open spec fn live_pics(pics: Seq<Seq<char>>, assocs: Seq<AssocModel>) -> Seq<Seq<char>>
    decreases pics.len(),
{
    if pics.len() == 0 {
        Seq::empty()
    } else {
        let rest = live_pics(pics.drop_last(), assocs);
        if has_pic_assoc(assocs, pics.last()) {
            rest.push(pics.last())
        } else {
            rest
        }
    }
}

/// How many associations of `assocs` tie `pic` to `word`.
pub open spec fn assoc_count(assocs: Seq<AssocModel>, pic: Seq<char>, word: Seq<char>) -> nat
    decreases assocs.len(),
{
    if assocs.len() == 0 {
        0
    } else {
        let rest = assoc_count(assocs.drop_last(), pic, word);
        if assocs.last().pic == pic && assocs.last().word == word {
            rest + 1
        } else {
            rest
        }
    }
}

/// One association row.
struct Assoc {
    pic: String,
    word: String,
}

impl View for Assoc {
    type V = AssocModel;

    closed spec fn view(&self) -> AssocModel {
        AssocModel { pic: self.pic@, word: self.word@ }
    }
}

/// The store itself, together with the credentials it was opened with.
pub struct DbInfo {
    user: String,
    pwd: String,
    pics: Vec<String>,
    assocs: Vec<Assoc>,
    rng: u64,
}

impl View for DbInfo {
    type V = StoreModel;

    closed spec fn view(&self) -> StoreModel {
        StoreModel {
            pics: self.pics.deep_view(),
            assocs: self.assocs@.map_values(|a: Assoc| a@),
        }
    }
}

impl DbInfo {
    /// The store's invariant holds.
    pub open spec fn wf(&self) -> bool {
        store_wf(self@)
    }

    /// A fresh, empty store for the given credentials.
    pub fn new(user: &str, pwd: &str) -> (r: DbInfo)
        ensures
            r.wf(),
            r@ == empty_store(),
    {
        let r = DbInfo {
            user: user.to_owned(),
            pwd: pwd.to_owned(),
            pics: Vec::new(),
            assocs: Vec::new(),
            rng: 123456789,
        };
        proof {
            assert(r@ =~~= empty_store());
        }
        r
    }

    /// A fresh, empty store with no credentials.
    pub fn empty() -> (r: DbInfo)
        ensures
            r.wf(),
            r@ == empty_store(),
    {
        DbInfo::new("", "")
    }
}

/// Opens the store for the given credentials.
pub fn init(user: &str, pwd: &str) -> (r: DbInfo)
    ensures
        r.wf(),
        r@ == empty_store(),
{
    DbInfo::new(user, pwd)
}

/// The next pseudo-random draw; only the generator state of `db` changes.
fn next_rand(db: &mut DbInfo) -> (k: u64)
    ensures
        final (db)@ == old(db)@,
{
    let r0 = db.rng % 2147483648;
    let r1 = (r0 * 1103515245 + 12345) % 2147483648;
    db.rng = r1;
    r1
}

fn vec_contains_str(v: &Vec<String>, s: &str) -> (r: bool)
    ensures
        r == v.deep_view().contains(s@),
{
    let mut i: usize = 0;
    while i < v.len()
        invariant
            i <= v@.len(),
            forall|k: int| 0 <= k < i ==> v.deep_view()[k] != s@,
        decreases v@.len() - i,
    {
        if str_eq(v[i].as_str(), s) {
            assert(v.deep_view()[i as int] == s@);
            return true;
        }
        i += 1;
    }
    false
}

fn has_assoc_exec(assocs: &Vec<Assoc>, pic: &str, word: &str) -> (r: bool)
    ensures
        r == has_assoc(assocs@.map_values(|a: Assoc| a@), pic@, word@),
{
    let ghost dv = assocs@.map_values(|a: Assoc| a@);
    let mut i: usize = 0;
    while i < assocs.len()
        invariant
            i <= assocs@.len(),
            dv == assocs@.map_values(|a: Assoc| a@),
            forall|k: int| 0 <= k < i ==> !(dv[k].pic == pic@ && dv[k].word == word@),
        decreases assocs@.len() - i,
    {
        if str_eq(assocs[i].pic.as_str(), pic) && str_eq(assocs[i].word.as_str(), word) {
            assert(dv[i as int].pic == pic@ && dv[i as int].word == word@);
            return true;
        }
        i += 1;
    }
    false
}

fn has_pic_exec(assocs: &Vec<Assoc>, pic: &str) -> (r: bool)
    ensures
        r == has_pic_assoc(assocs@.map_values(|a: Assoc| a@), pic@),
{
    let ghost dv = assocs@.map_values(|a: Assoc| a@);
    let mut i: usize = 0;
    while i < assocs.len()
        invariant
            i <= assocs@.len(),
            dv == assocs@.map_values(|a: Assoc| a@),
            forall|k: int| 0 <= k < i ==> dv[k].pic != pic@,
        decreases assocs@.len() - i,
    {
        if str_eq(assocs[i].pic.as_str(), pic) {
            assert(dv[i as int].pic == pic@);
            return true;
        }
        i += 1;
    }
    false
}

proof fn lemma_add_assocs_push(m: StoreModel, pic: Seq<char>, ws: Seq<Seq<char>>, w: Seq<char>)
    ensures
        add_assocs(m, pic, ws.push(w)) == add_assoc(add_assocs(m, pic, ws), pic, w),
    decreases ws.len(),
{
    if ws.len() == 0 {
        assert(ws.push(w)[0] == w);
        assert(ws.push(w).drop_first() =~= Seq::<Seq<char>>::empty());
        assert(add_assocs(m, pic, ws.push(w)) == add_assocs(
            add_assoc(m, pic, w),
            pic,
            Seq::<Seq<char>>::empty(),
        ));
        assert(add_assocs(add_assoc(m, pic, w), pic, Seq::<Seq<char>>::empty()) == add_assoc(
            m,
            pic,
            w,
        ));
        assert(add_assocs(m, pic, ws) == m);
    } else {
        assert(ws.push(w)[0] == ws[0]);
        assert(ws.push(w).drop_first() =~= ws.drop_first().push(w));
        lemma_add_assocs_push(add_assoc(m, pic, ws[0]), pic, ws.drop_first(), w);
    }
}

/// Splits `word` into words and ties each of them to `pic`, creating the
/// picture row, the word rows, and the missing associations; re-tagging an
/// existing pair changes nothing.
pub fn append_word(pic: &str, word: &str, db: &mut DbInfo) -> (r: Result<(), String>)
    requires
        old(db).wf(),
    ensures
        final (db).wf(),
        final (db)@ == append_spec(old(db)@, pic@, split_ws(word@)),
        r is Ok,
{
    let words = split_ws_str(word);
    if !vec_contains_str(&db.pics, pic) {
        let ghost before = db@;
        db.pics.push(pic.to_owned());
        proof {
            assert(db@ =~~= ensure_pic(before, pic@));
        }
    }
    let ghost m1 = ensure_pic(old(db)@, pic@);
    proof {
        assert(db@ =~~= m1);
        assert(words.deep_view().take(0) =~= Seq::<Seq<char>>::empty());
    }
    let mut i: usize = 0;
    while i < words.len()
        invariant
            i <= words@.len(),
            words.deep_view() == split_ws(word@),
            db@ == add_assocs(m1, pic@, words.deep_view().take(i as int)),
        decreases words@.len() - i,
    {
        let ghost before = db@;
        if !has_assoc_exec(&db.assocs, pic, words[i].as_str()) {
            db.assocs.push(Assoc { pic: pic.to_owned(), word: words[i].clone() });
            proof {
                assert(db@.assocs =~= before.assocs.push(
                    AssocModel { pic: pic@, word: words.deep_view()[i as int] },
                ));
                assert(db@ =~~= add_assoc(before, pic@, words.deep_view()[i as int]));
            }
        } else {
            proof {
                assert(db@ =~~= add_assoc(before, pic@, words.deep_view()[i as int]));
            }
        }
        proof {
            let dv = words.deep_view();
            lemma_add_assocs_push(m1, pic@, dv.take(i as int), dv[i as int]);
            assert(dv.take(i + 1) =~= dv.take(i as int).push(dv[i as int]));
        }
        i += 1;
    }
    proof {
        assert(words.deep_view().take(words@.len() as int) =~= words.deep_view());
        lemma_append_spec_wf(old(db)@, pic@, split_ws(word@));
    }
    Ok(())
}

/// Removes every association of `pic`, then tags it with the words of
/// `word`: "replace" discards the old tags and installs the given ones.
pub fn replace_word(pic: &str, word: &str, db: &mut DbInfo) -> (r: Result<(), String>)
    requires
        old(db).wf(),
    ensures
        final (db).wf(),
        final (db)@ == append_spec(delete_spec(old(db)@, pic@), pic@, split_ws(word@)),
        r is Ok,
{
    let r1 = delete_pic(pic, db);
    if r1.is_err() {
        return r1;
    }
    append_word(pic, word, db)
}

/// Removes every association of `pic`; a no-op when the picture is unknown.
/// The picture row itself stays until `clean` collects it.
pub fn delete_pic(pic: &str, db: &mut DbInfo) -> (r: Result<(), String>)
    requires
        old(db).wf(),
    ensures
        final (db).wf(),
        final (db)@ == delete_spec(old(db)@, pic@),
        r is Ok,
{
    let ghost dv0 = db@.assocs;
    let mut kept: Vec<Assoc> = Vec::new();
    proof {
        assert(kept@.map_values(|a: Assoc| a@) =~= Seq::<AssocModel>::empty());
        assert(dv0.take(0) =~= Seq::<AssocModel>::empty());
    }
    let mut i: usize = 0;
    while i < db.assocs.len()
        invariant
            i <= db.assocs@.len(),
            dv0 == db@.assocs,
            kept@.map_values(|a: Assoc| a@) == assocs_without(dv0.take(i as int), pic@),
        decreases db.assocs@.len() - i,
    {
        let ghost kv = kept@.map_values(|a: Assoc| a@);
        if !str_eq(db.assocs[i].pic.as_str(), pic) {
            let a = Assoc {
                pic: db.assocs[i].pic.clone(),
                word: db.assocs[i].word.clone(),
            };
            kept.push(a);
            proof {
                assert(kept@.map_values(|a: Assoc| a@) =~= kv.push(dv0[i as int]));
            }
        }
        proof {
            assert(dv0.take(i + 1).drop_last() =~= dv0.take(i as int));
            assert(dv0.take(i + 1).last() == dv0[i as int]);
        }
        i += 1;
    }
    proof {
        assert(dv0.take(db.assocs@.len() as int) =~= dv0);
    }
    db.assocs = kept;
    proof {
        assert(db@ =~~= delete_spec(old(db)@, pic@));
        lemma_delete_spec_wf(old(db)@, pic@);
    }
    Ok(())
}

/// The pictures carrying `word`: first the one most recently tagged with
/// it, then, when others exist, one of them, never the first again.
pub fn query_pic(word: &str, db: &mut DbInfo) -> (r: Result<Vec<String>, String>)
    requires
        old(db).wf(),
    ensures
        final (db).wf(),
        final (db)@ == old(db)@,
        r is Ok,
        query_post(old(db)@, word@, (r->Ok_0).deep_view()),
{
    let ghost dv0 = db@.assocs;
    let mut cands: Vec<String> = Vec::new();
    proof {
        assert(cands.deep_view() =~= Seq::<Seq<char>>::empty());
        assert(dv0.take(0) =~= Seq::<AssocModel>::empty());
    }
    let mut i: usize = 0;
    while i < db.assocs.len()
        invariant
            i <= db.assocs@.len(),
            dv0 == db@.assocs,
            cands.deep_view() == pics_of(dv0.take(i as int), word@),
        decreases db.assocs@.len() - i,
    {
        let ghost cv = cands.deep_view();
        if str_eq(db.assocs[i].word.as_str(), word) {
            cands.push(db.assocs[i].pic.clone());
            proof {
                assert(cands.deep_view() =~= cv.push(dv0[i as int].pic));
            }
        }
        proof {
            assert(dv0.take(i + 1).drop_last() =~= dv0.take(i as int));
            assert(dv0.take(i + 1).last() == dv0[i as int]);
        }
        i += 1;
    }
    proof {
        assert(dv0.take(db.assocs@.len() as int) =~= dv0);
    }
    let ghost cseq = pics_of(db@.assocs, word@);
    if cands.len() == 0 {
        let out: Vec<String> = Vec::new();
        proof {
            assert(out.deep_view() =~= Seq::<Seq<char>>::empty());
        }
        return Ok(out);
    }
    let newest = cands[cands.len() - 1].clone();
    if cands.len() == 1 {
        let out = vec![newest];
        proof {
            assert(out.deep_view() =~= seq![cseq.last()]);
        }
        return Ok(out);
    }
    let k = next_rand(db);
    let idx = (k as usize) % (cands.len() - 1);
    let second = cands[idx].clone();
    let out = vec![newest, second];
    proof {
        lemma_pics_of_distinct(old(db)@.assocs, word@);
        assert(out.deep_view() =~= seq![cseq.last(), cseq[idx as int]]);
        assert(cseq[idx as int] != cseq.last());
        assert(cseq.contains(cseq[idx as int]));
    }
    Ok(out)
}

/// What `query_pic` promises of its result `v`, given the store and word.
pub open spec fn query_post(m: StoreModel, word: Seq<char>, v: Seq<Seq<char>>) -> bool {
    let cands = pics_of(m.assocs, word);
    &&& (cands.len() == 0 ==> v.len() == 0)
    &&& (cands.len() == 1 ==> v.len() == 1)
    &&& (cands.len() >= 1 ==> v.len() >= 1 && v[0] == cands.last())
    &&& (cands.len() >= 2 ==> v.len() == 2 && v[1] != v[0] && cands.contains(v[1]))
}

/// A picture chosen from the whole corpus, or the empty string when the
/// corpus is empty.
pub fn random_pic(db: &mut DbInfo) -> (r: Result<String, String>)
    requires
        old(db).wf(),
    ensures
        final (db).wf(),
        final (db)@ == old(db)@,
        r is Ok,
        old(db)@.pics.len() == 0 ==> (r->Ok_0)@ == Seq::<char>::empty(),
        old(db)@.pics.len() > 0 ==> old(db)@.pics.contains((r->Ok_0)@),
{
    if db.pics.len() == 0 {
        return Ok(String::new());
    }
    let k = next_rand(db);
    let idx = (k as usize) % db.pics.len();
    let name = db.pics[idx].clone();
    proof {
        assert(old(db)@.pics[idx as int] == name@);
    }
    Ok(name)
}

/// The words tagging `pic`, joined with single spaces; an error when no
/// row for `pic` exists.
pub fn list_pic_words(pic: &str, db: &DbInfo) -> (r: Result<String, String>)
    requires
        db.wf(),
    ensures
        r is Ok <==> db@.pics.contains(pic@),
        r is Ok ==> (r->Ok_0)@ == join_sp(words_of(db@.assocs, pic@)),
        r is Err ==> (r->Err_0)@ == "no such pic"@,
{
    if !vec_contains_str(&db.pics, pic) {
        return Err(String::from_str("no such pic"));
    }
    let ghost dv0 = db@.assocs;
    let mut ws: Vec<String> = Vec::new();
    proof {
        assert(ws.deep_view() =~= Seq::<Seq<char>>::empty());
        assert(dv0.take(0) =~= Seq::<AssocModel>::empty());
    }
    let mut i: usize = 0;
    while i < db.assocs.len()
        invariant
            i <= db.assocs@.len(),
            dv0 == db@.assocs,
            ws.deep_view() == words_of(dv0.take(i as int), pic@),
        decreases db.assocs@.len() - i,
    {
        let ghost wv = ws.deep_view();
        if str_eq(db.assocs[i].pic.as_str(), pic) {
            ws.push(db.assocs[i].word.clone());
            proof {
                assert(ws.deep_view() =~= wv.push(dv0[i as int].word));
            }
        }
        proof {
            assert(dv0.take(i + 1).drop_last() =~= dv0.take(i as int));
            assert(dv0.take(i + 1).last() == dv0[i as int]);
        }
        i += 1;
    }
    proof {
        assert(dv0.take(db.assocs@.len() as int) =~= dv0);
    }
    Ok(join_spaces(&ws))
}

/// How many picture rows the store holds.
pub fn count_pic(db: &DbInfo) -> (r: Result<u64, String>)
    requires
        db.wf(),
    ensures
        r is Ok,
        (r->Ok_0) as nat == db@.pics.len(),
{
    Ok(db.pics.len() as u64)
}

/// Removes the picture rows that no association mentions any more, and
/// reports how many were removed.
pub fn clean(db: &mut DbInfo) -> (r: Result<String, String>)
    requires
        old(db).wf(),
    ensures
        final (db).wf(),
        final (db)@.assocs == old(db)@.assocs,
        final (db)@.pics == live_pics(old(db)@.pics, old(db)@.assocs),
        final (db)@.pics.len() <= old(db)@.pics.len(),
        r is Ok,
        (r->Ok_0)@ == dec_str((old(db)@.pics.len() - final (db)@.pics.len()) as nat),
{
    let ghost pv0 = db@.pics;
    let mut kept: Vec<String> = Vec::new();
    proof {
        assert(kept.deep_view() =~= Seq::<Seq<char>>::empty());
        assert(pv0.take(0) =~= Seq::<Seq<char>>::empty());
    }
    let mut i: usize = 0;
    while i < db.pics.len()
        invariant
            i <= db.pics@.len(),
            pv0 == db@.pics,
            kept.deep_view() == live_pics(pv0.take(i as int), db@.assocs),
            kept@.len() <= i,
        decreases db.pics@.len() - i,
    {
        let ghost kv = kept.deep_view();
        if has_pic_exec(&db.assocs, db.pics[i].as_str()) {
            kept.push(db.pics[i].clone());
            proof {
                assert(kept.deep_view() =~= kv.push(pv0[i as int]));
            }
        }
        proof {
            assert(pv0.take(i + 1).drop_last() =~= pv0.take(i as int));
            assert(pv0.take(i + 1).last() == pv0[i as int]);
        }
        i += 1;
    }
    proof {
        assert(pv0.take(db.pics@.len() as int) =~= pv0);
    }
    let removed = db.pics.len() - kept.len();
    let ghost before = db@;
    db.pics = kept;
    proof {
        assert(db@ =~~= StoreModel { pics: live_pics(pv0, before.assocs), assocs: before.assocs });
        lemma_live_pics_wf(old(db)@);
    }
    Ok(u64_to_string(removed as u64))
}

proof fn lemma_add_assoc_wf(m: StoreModel, pic: Seq<char>, w: Seq<char>)
    requires
        store_wf(m),
        m.pics.contains(pic),
    ensures
        store_wf(add_assoc(m, pic, w)),
        add_assoc(m, pic, w).pics == m.pics,
{
    let m2 = add_assoc(m, pic, w);
    if !has_assoc(m.assocs, pic, w) {
        assert forall|i: int, j: int| 0 <= i < j < m2.assocs.len() implies !(m2.assocs[i].pic
            == m2.assocs[j].pic && m2.assocs[i].word == m2.assocs[j].word) by {
            if j == m.assocs.len() as int {
                if m2.assocs[i].pic == pic && m2.assocs[i].word == w {
                    assert(m.assocs[i].pic == pic && m.assocs[i].word == w);
                    assert(has_assoc(m.assocs, pic, w));
                }
            }
        }
    }
}

proof fn lemma_add_assocs_wf(m: StoreModel, pic: Seq<char>, ws: Seq<Seq<char>>)
    requires
        store_wf(m),
        m.pics.contains(pic),
    ensures
        store_wf(add_assocs(m, pic, ws)),
        add_assocs(m, pic, ws).pics == m.pics,
    decreases ws.len(),
{
    if ws.len() > 0 {
        lemma_add_assoc_wf(m, pic, ws[0]);
        lemma_add_assocs_wf(add_assoc(m, pic, ws[0]), pic, ws.drop_first());
    }
}

/// Appending keeps the store invariant.
pub proof fn lemma_append_spec_wf(m: StoreModel, pic: Seq<char>, ws: Seq<Seq<char>>)
    requires
        store_wf(m),
    ensures
        store_wf(append_spec(m, pic, ws)),
        append_spec(m, pic, ws).pics.contains(pic),
{
    let m1 = ensure_pic(m, pic);
    assert(store_wf(m1) && m1.pics.contains(pic)) by {
        if !m.pics.contains(pic) {
            assert(m1.pics.last() == pic);
            assert forall|i: int| 0 <= i < m1.assocs.len() implies m1.pics.contains(
                #[trigger] m1.assocs[i].pic,
            ) by {
                assert(m.pics.contains(m.assocs[i].pic));
                let t = choose|t: int| 0 <= t < m.pics.len() && m.pics[t] == m.assocs[i].pic;
                assert(m1.pics[t] == m.assocs[i].pic);
            }
        }
    }
    lemma_add_assocs_wf(m1, pic, ws);
}

proof fn lemma_assocs_without_props(assocs: Seq<AssocModel>, pic: Seq<char>)
    requires
        pair_unique(assocs),
    ensures
        pair_unique(assocs_without(assocs, pic)),
        forall|x: AssocModel|
            #[trigger] assocs_without(assocs, pic).contains(x) <==> assocs.contains(x) && x.pic
                != pic,
    decreases assocs.len(),
{
    let res = assocs_without(assocs, pic);
    if assocs.len() == 0 {
        assert forall|x: AssocModel| #[trigger] res.contains(x) implies false by {}
    } else {
        let head = assocs.drop_last();
        assert(pair_unique(head));
        lemma_assocs_without_props(head, pic);
        let rest = assocs_without(head, pic);
        assert forall|x: AssocModel| #[trigger] assocs.contains(x) && x.pic != pic implies
            res.contains(x) by {
            let t = choose|t: int| 0 <= t < assocs.len() && assocs[t] == x;
            if t < assocs.len() - 1 {
                assert(head[t] == x);
                assert(head.contains(x));
                assert(rest.contains(x));
                let u = choose|u: int| 0 <= u < rest.len() && rest[u] == x;
                assert(res[u] == x);
            } else {
                assert(assocs.last() == x);
                assert(res.last() == x);
            }
        }
        assert forall|x: AssocModel| #[trigger] res.contains(x) implies assocs.contains(x)
            && x.pic != pic by {
            let u = choose|u: int| 0 <= u < res.len() && res[u] == x;
            if assocs.last().pic == pic {
                assert(rest.contains(x));
            } else {
                if u < res.len() - 1 {
                    assert(rest[u] == x);
                    assert(rest.contains(x));
                } else {
                    assert(x == assocs.last());
                }
            }
            if rest.contains(x) {
                assert(head.contains(x));
                let t = choose|t: int| 0 <= t < head.len() && head[t] == x;
                assert(assocs[t] == x);
            }
        }
        if assocs.last().pic != pic {
            assert forall|i: int, j: int| 0 <= i < j < res.len() implies !(res[i].pic == res[j].pic
                && res[i].word == res[j].word) by {
                if j == res.len() - 1 {
                    assert(rest[i] == res[i]);
                    assert(rest.contains(res[i]));
                    assert(head.contains(res[i]));
                    let t = choose|t: int| 0 <= t < head.len() && head[t] == res[i];
                    if res[i].pic == assocs.last().pic && res[i].word == assocs.last().word {
                        assert(assocs[t].pic == assocs.last().pic && assocs[t].word
                            == assocs.last().word);
                        assert(false);
                    }
                }
            }
        }
    }
}

/// Deleting keeps the store invariant.
pub proof fn lemma_delete_spec_wf(m: StoreModel, pic: Seq<char>)
    requires
        store_wf(m),
    ensures
        store_wf(delete_spec(m, pic)),
{
    lemma_assocs_without_props(m.assocs, pic);
    let res = delete_spec(m, pic);
    assert forall|i: int| 0 <= i < res.assocs.len() implies m.pics.contains(
        #[trigger] res.assocs[i].pic,
    ) by {
        assert(res.assocs.contains(res.assocs[i]));
        assert(m.assocs.contains(res.assocs[i]));
        let t = choose|t: int| 0 <= t < m.assocs.len() && m.assocs[t] == res.assocs[i];
        assert(m.pics.contains(m.assocs[t].pic));
    }
}

proof fn lemma_live_pics_wf(m: StoreModel)
    requires
        store_wf(m),
    ensures
        store_wf(StoreModel { pics: live_pics(m.pics, m.assocs), assocs: m.assocs }),
{
    lemma_live_pics_props(m.pics, m.assocs);
    let live = live_pics(m.pics, m.assocs);
    assert forall|i: int| 0 <= i < m.assocs.len() implies live.contains(
        #[trigger] m.assocs[i].pic,
    ) by {
        assert(m.pics.contains(m.assocs[i].pic));
        assert(has_pic_assoc(m.assocs, m.assocs[i].pic));
    }
}

proof fn lemma_live_pics_props(pics: Seq<Seq<char>>, assocs: Seq<AssocModel>)
    requires
        forall|i: int, j: int| 0 <= i < j < pics.len() ==> pics[i] != pics[j],
    ensures
        forall|i: int, j: int|
            0 <= i < j < live_pics(pics, assocs).len() ==> live_pics(pics, assocs)[i]
                != live_pics(pics, assocs)[j],
        forall|p: Seq<char>|
            #[trigger] live_pics(pics, assocs).contains(p) <==> pics.contains(p) && has_pic_assoc(
                assocs,
                p,
            ),
    decreases pics.len(),
{
    let res = live_pics(pics, assocs);
    if pics.len() == 0 {
        assert forall|p: Seq<char>| #[trigger] res.contains(p) implies false by {}
    } else {
        let head = pics.drop_last();
        lemma_live_pics_props(head, assocs);
        let rest = live_pics(head, assocs);
        assert forall|p: Seq<char>| #[trigger] pics.contains(p) && has_pic_assoc(assocs, p)
            implies res.contains(p) by {
            let t = choose|t: int| 0 <= t < pics.len() && pics[t] == p;
            if t < pics.len() - 1 {
                assert(head[t] == p);
                assert(head.contains(p));
                assert(rest.contains(p));
                let u = choose|u: int| 0 <= u < rest.len() && rest[u] == p;
                assert(res[u] == p);
            } else {
                assert(res.last() == p);
            }
        }
        assert forall|p: Seq<char>| #[trigger] res.contains(p) implies pics.contains(p)
            && has_pic_assoc(assocs, p) by {
            let u = choose|u: int| 0 <= u < res.len() && res[u] == p;
            if has_pic_assoc(assocs, pics.last()) && u == res.len() - 1 {
                assert(p == pics.last());
            } else {
                assert(rest[u] == p);
                assert(rest.contains(p));
                assert(head.contains(p));
                let t = choose|t: int| 0 <= t < head.len() && head[t] == p;
                assert(pics[t] == p);
            }
        }
        if has_pic_assoc(assocs, pics.last()) {
            assert forall|i: int, j: int| 0 <= i < j < res.len() implies res[i] != res[j] by {
                if j == res.len() - 1 {
                    assert(rest[i] == res[i]);
                    assert(rest.contains(res[i]));
                    assert(head.contains(res[i]));
                    let t = choose|t: int| 0 <= t < head.len() && head[t] == res[i];
                    if res[i] == pics.last() {
                        assert(pics[t] == pics.last());
                        assert(false);
                    }
                }
            }
        }
    }
}

/// The pictures carrying one word are pairwise distinct, and each of them
/// is indeed associated with the word.
proof fn lemma_pics_of_distinct(assocs: Seq<AssocModel>, word: Seq<char>)
    requires
        pair_unique(assocs),
    ensures
        forall|i: int, j: int|
            0 <= i < j < pics_of(assocs, word).len() ==> pics_of(assocs, word)[i] != pics_of(
                assocs,
                word,
            )[j],
        forall|p: Seq<char>|
            #[trigger] pics_of(assocs, word).contains(p) ==> has_assoc(assocs, p, word),
    decreases assocs.len(),
{
    let res = pics_of(assocs, word);
    if assocs.len() > 0 {
        let head = assocs.drop_last();
        assert(pair_unique(head));
        lemma_pics_of_distinct(head, word);
        let rest = pics_of(head, word);
        assert forall|p: Seq<char>| #[trigger] res.contains(p) implies has_assoc(
            assocs,
            p,
            word,
        ) by {
            let u = choose|u: int| 0 <= u < res.len() && res[u] == p;
            if assocs.last().word == word && u == res.len() - 1 {
                assert(assocs[assocs.len() - 1].pic == p && assocs[assocs.len() - 1].word == word);
            } else {
                assert(rest[u] == p);
                assert(rest.contains(p));
                assert(has_assoc(head, p, word));
                let t = choose|t: int|
                    0 <= t < head.len() && head[t].pic == p && head[t].word == word;
                assert(assocs[t].pic == p && assocs[t].word == word);
            }
        }
        if assocs.last().word == word {
            assert forall|i: int, j: int| 0 <= i < j < res.len() implies res[i] != res[j] by {
                if j == res.len() - 1 {
                    assert(rest[i] == res[i]);
                    assert(rest.contains(res[i]));
                    assert(has_assoc(head, res[i], word));
                    let t = choose|t: int|
                        0 <= t < head.len() && head[t].pic == res[i] && head[t].word == word;
                    if res[i] == res[j] {
                        assert(assocs[t].pic == assocs[assocs.len() - 1].pic && assocs[t].word
                            == assocs[assocs.len() - 1].word);
                        assert(false);
                    }
                }
            }
        }
    }
}

proof fn lemma_add_assoc_has(m: StoreModel, pic: Seq<char>, w0: Seq<char>, p: Seq<char>, w: Seq<
    char,
>)
    ensures
        has_assoc(add_assoc(m, pic, w0).assocs, p, w) == (has_assoc(m.assocs, p, w) || (p == pic
            && w == w0)),
{
    let a2 = add_assoc(m, pic, w0).assocs;
    if has_assoc(m.assocs, pic, w0) {
        if p == pic && w == w0 {
            assert(has_assoc(m.assocs, p, w));
        }
    } else {
        if has_assoc(a2, p, w) {
            let t = choose|t: int| 0 <= t < a2.len() && a2[t].pic == p && a2[t].word == w;
            if t < m.assocs.len() {
                assert(m.assocs[t].pic == p && m.assocs[t].word == w);
            }
        }
        if has_assoc(m.assocs, p, w) {
            let t = choose|t: int|
                0 <= t < m.assocs.len() && m.assocs[t].pic == p && m.assocs[t].word == w;
            assert(a2[t].pic == p && a2[t].word == w);
        }
        if p == pic && w == w0 {
            assert(a2[m.assocs.len() as int].pic == p && a2[m.assocs.len() as int].word == w);
        }
    }
}

proof fn lemma_add_assocs_has(m: StoreModel, pic: Seq<char>, ws: Seq<Seq<char>>, p: Seq<char>, w: Seq<
    char,
>)
    ensures
        has_assoc(add_assocs(m, pic, ws).assocs, p, w) == (has_assoc(m.assocs, p, w) || (p == pic
            && ws.contains(w))),
    decreases ws.len(),
{
    if ws.len() == 0 {
    } else {
        let m0 = add_assoc(m, pic, ws[0]);
        lemma_add_assoc_has(m, pic, ws[0], p, w);
        lemma_add_assocs_has(m0, pic, ws.drop_first(), p, w);
        if ws.drop_first().contains(w) {
            let u = choose|u: int|
                0 <= u < ws.drop_first().len() && ws.drop_first()[u] == w;
            assert(ws[u + 1] == w);
        }
        if ws.contains(w) && w != ws[0] {
            let u = choose|u: int| 0 <= u < ws.len() && ws[u] == w;
            assert(ws.drop_first()[u - 1] == w);
        }
    }
}

proof fn lemma_add_assocs_noop(m: StoreModel, pic: Seq<char>, ws: Seq<Seq<char>>)
    requires
        forall|k: int| 0 <= k < ws.len() ==> has_assoc(m.assocs, pic, #[trigger] ws[k]),
    ensures
        add_assocs(m, pic, ws) == m,
    decreases ws.len(),
{
    if ws.len() > 0 {
        assert(has_assoc(m.assocs, pic, ws[0]));
        assert(add_assoc(m, pic, ws[0]) == m);
        assert(forall|k: int|
            0 <= k < ws.drop_first().len() ==> ws.drop_first()[k] == ws[k + 1]);
        lemma_add_assocs_noop(m, pic, ws.drop_first());
    }
}

proof fn lemma_count_unique(assocs: Seq<AssocModel>, pic: Seq<char>, w: Seq<char>)
    requires
        pair_unique(assocs),
    ensures
        assoc_count(assocs, pic, w) == if has_assoc(assocs, pic, w) {
            1nat
        } else {
            0nat
        },
    decreases assocs.len(),
{
    if assocs.len() > 0 {
        let head = assocs.drop_last();
        assert(pair_unique(head));
        lemma_count_unique(head, pic, w);
        if assocs.last().pic == pic && assocs.last().word == w {
            if has_assoc(head, pic, w) {
                let t = choose|t: int|
                    0 <= t < head.len() && head[t].pic == pic && head[t].word == w;
                assert(assocs[t].pic == assocs[assocs.len() - 1].pic && assocs[t].word
                    == assocs[assocs.len() - 1].word);
                assert(false);
            }
            assert(assocs[assocs.len() - 1].pic == pic && assocs[assocs.len() - 1].word == w);
        } else {
            if has_assoc(assocs, pic, w) {
                let t = choose|t: int|
                    0 <= t < assocs.len() && assocs[t].pic == pic && assocs[t].word == w;
                assert(t < assocs.len() - 1);
                assert(head[t].pic == pic && head[t].word == w);
            }
            if has_assoc(head, pic, w) {
                let t = choose|t: int|
                    0 <= t < head.len() && head[t].pic == pic && head[t].word == w;
                assert(assocs[t].pic == pic && assocs[t].word == w);
            }
        }
    }
}

proof fn lemma_words_of_iff(assocs: Seq<AssocModel>, pic: Seq<char>)
    ensures
        forall|w: Seq<char>|
            #![trigger words_of(assocs, pic).contains(w)]
            #![trigger has_assoc(assocs, pic, w)]
            words_of(assocs, pic).contains(w) <==> has_assoc(assocs, pic, w),
    decreases assocs.len(),
{
    let res = words_of(assocs, pic);
    if assocs.len() == 0 {
        assert forall|w: Seq<char>| !res.contains(w) && !has_assoc(assocs, pic, w) by {}
    } else {
        let head = assocs.drop_last();
        lemma_words_of_iff(head, pic);
        let rest = words_of(head, pic);
        assert forall|w: Seq<char>| #[trigger] res.contains(w) implies has_assoc(
            assocs,
            pic,
            w,
        ) by {
            let u = choose|u: int| 0 <= u < res.len() && res[u] == w;
            if assocs.last().pic == pic && u == res.len() - 1 {
                assert(assocs[assocs.len() - 1].pic == pic && assocs[assocs.len() - 1].word == w);
            } else {
                assert(rest[u] == w);
                assert(rest.contains(w));
                assert(has_assoc(head, pic, w));
                let t = choose|t: int|
                    0 <= t < head.len() && head[t].pic == pic && head[t].word == w;
                assert(assocs[t].pic == pic && assocs[t].word == w);
            }
        }
        assert forall|w: Seq<char>| #[trigger] has_assoc(assocs, pic, w) implies res.contains(
            w,
        ) by {
            let t = choose|t: int|
                0 <= t < assocs.len() && assocs[t].pic == pic && assocs[t].word == w;
            if t == assocs.len() - 1 {
                assert(res.last() == w);
            } else {
                assert(head[t].pic == pic && head[t].word == w);
                assert(has_assoc(head, pic, w));
                assert(rest.contains(w));
                let u = choose|u: int| 0 <= u < rest.len() && rest[u] == w;
                assert(res[u] == w);
            }
        }
    }
}

/// Tagging a picture twice with the same text changes nothing the second
/// time, and leaves exactly one association per (picture, word) pair.
pub proof fn lemma_append_word_idempotent(m: StoreModel, pic: Seq<char>, ws: Seq<Seq<char>>)
    requires
        store_wf(m),
    ensures
        append_spec(append_spec(m, pic, ws), pic, ws) == append_spec(m, pic, ws),
        forall|w: Seq<char>|
            #[trigger] ws.contains(w) ==> assoc_count(append_spec(m, pic, ws).assocs, pic, w)
                == 1,
{
    let m2 = append_spec(m, pic, ws);
    lemma_append_spec_wf(m, pic, ws);
    assert forall|k: int| 0 <= k < ws.len() implies has_assoc(
        m2.assocs,
        pic,
        #[trigger] ws[k],
    ) by {
        lemma_add_assocs_has(ensure_pic(m, pic), pic, ws, pic, ws[k]);
        assert(ws.contains(ws[k]));
    }
    assert(ensure_pic(m2, pic) == m2);
    lemma_add_assocs_noop(m2, pic, ws);
    assert forall|w: Seq<char>| #[trigger] ws.contains(w) implies assoc_count(
        m2.assocs,
        pic,
        w,
    ) == 1 by {
        let k = choose|k: int| 0 <= k < ws.len() && ws[k] == w;
        assert(has_assoc(m2.assocs, pic, ws[k]));
        lemma_count_unique(m2.assocs, pic, w);
    }
}

/// After a replace, the picture carries exactly the given words: the old
/// tags are gone, whatever they were.
pub proof fn lemma_replace_word_exact(m: StoreModel, pic: Seq<char>, ws: Seq<Seq<char>>)
    requires
        store_wf(m),
    ensures
        forall|w: Seq<char>|
            #![trigger words_of(append_spec(delete_spec(m, pic), pic, ws).assocs, pic).contains(w)]
            #![trigger ws.contains(w)]
            words_of(append_spec(delete_spec(m, pic), pic, ws).assocs, pic).contains(w)
                <==> ws.contains(w),
{
    let md = delete_spec(m, pic);
    lemma_delete_spec_wf(m, pic);
    lemma_assocs_without_props(m.assocs, pic);
    let m2 = append_spec(md, pic, ws);
    lemma_words_of_iff(m2.assocs, pic);
    assert forall|w: Seq<char>| #[trigger] has_assoc(m2.assocs, pic, w) == ws.contains(w) by {
        if has_assoc(md.assocs, pic, w) {
            let t = choose|t: int|
                0 <= t < md.assocs.len() && md.assocs[t].pic == pic && md.assocs[t].word == w;
            assert(md.assocs.contains(md.assocs[t]));
            assert(false);
        }
        lemma_add_assocs_has(ensure_pic(md, pic), pic, ws, pic, w);
    }
}

} // verus!

