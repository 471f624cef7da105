//! Readable passwords from words.
//!
//! Text is split into words ([`lexicon`], [`settings`]); a password is put
//! together from consecutive words of the list, brought to a length window,
//! given digits and special characters at random places, and balanced between
//! upper and lower case ([`password`]).
//!
//! Every function here is verified, except the contracts in [`trusted`], which
//! state what the crates behind them are relied on to do.
//!
//! ```no_run
//! use genrepass::{range_inc_from_str, PasswordSettings};
//!
//! let mut settings = PasswordSettings::new();
//! settings.get_words_from_str("A string I got from somewhere");
//! settings.pass_amount = 5;
//! settings.capitalise = true;
//! settings.length = range_inc_from_str("30-50").unwrap();
//! for password in settings.generate().unwrap() {
//!     println!("{}", password);
//! }
//! ```

pub mod helpers;
pub mod lexicon;
pub mod password;
pub mod settings;
pub mod sources;
pub mod text;
pub mod trusted;
pub mod words;

pub use crate::helpers::{range_inc_from_str, ParseRangeError, RangeSpec};
pub use crate::lexicon::{CharFilter, Deunicode, Lexicon, Split};
pub use crate::password::Password;
pub use crate::settings::{
    NonAsciiSpecialCharsError, NotEnoughWordsError, PasswordSettings, SpecialChars,
};
pub use crate::words::WordList;
