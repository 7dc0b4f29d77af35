//! An instant-messaging bot that lets users tag pictures with words and
//! retrieve them by word.
//!
//! The crate is organised bottom-up: [`text`] holds the string algorithms the
//! classifier is built from, [`db`] the picture/word association store,
//! [`bot`] the message classifier and command dispatcher, and [`web`] the
//! translation between decoded request parameters and outbound directives.

pub mod bot;
pub mod db;
pub mod text;
pub mod web;
