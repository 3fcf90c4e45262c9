//! Display names of paths, descriptions of failures, and sizes in words.

use crate::rounding::{hundredths, hundredths_of};
use crate::text::{append_decimal, decimal, digit_char, digit_text, ends_with_char};
use vstd::prelude::*;

verus! {

/// `name` as it is shown for a directory or for a file: with one `/` at its end
/// for a directory, and without the `/` that it ends with for a file.
pub open spec fn marked_name(name: Seq<char>, is_dir: bool) -> Seq<char> {
    let ends_with_slash = name.len() > 0 && name.last() == '/';
    if ends_with_slash == is_dir {
        name
    } else if is_dir {
        name.push('/')
    } else {
        name.drop_last()
    }
}

/// Gives `string` the ending of a directory's name or of a file's name.
pub fn add_slash_if_needed(string: String, is_dir: bool) -> (name: String)
    ensures
        name@ == marked_name(string@, is_dir),
{
    let ends_with_slash = ends_with_char(string.as_str(), '/');
    if ends_with_slash == is_dir {
        string
    } else if is_dir {
        proof {
            reveal_strlit("/");
        }
        assert(string@ + "/"@ =~= string@.push('/'));
        string.concat("/")
    } else {
        let text = string.as_str();
        let length = text.unicode_len();
        assert(string@.subrange(0, length - 1) =~= string@.drop_last());
        text.substring_char(0, length - 1).to_owned()
    }
}

/// The display name of a root: the whole path as it was given.
pub fn full_name_from_path(path: &str, is_dir: bool) -> (name: String)
    ensures
        name@ == marked_name(path@, is_dir),
{
    add_slash_if_needed(path.to_owned(), is_dir)
}

/// The final component of the path that `path` spells, as
/// `std::path::Path::file_name` finds it, or `None` where it finds none. Nothing
/// more is said of it here: it is what the standard library makes of a path.
pub uninterp spec fn file_name_of(path: Seq<char>) -> Option<Seq<char>>;

/// Calls `std::path::Path::file_name` on the path that `path` spells, and turns
/// the component that it finds into a string.
///
/// Believed, not proved: what comes back depends on the characters of `path`
/// alone, so that it can go by the name `file_name_of`.
#[verifier::external_body]
fn file_name(path: &str) -> (name: Option<String>)
    ensures
        match name {
            Some(n) => file_name_of(path@) == Some(n@),
            None => file_name_of(path@) is None,
        },
{
    std::path::Path::new(path).file_name().map(|name| name.to_string_lossy().into_owned())
}

/// The display name of an entry below a root: the final component of its path,
/// given as `file_name`, or the whole path where it has no final component.
pub open spec fn short_name(file_name: Option<Seq<char>>, path: Seq<char>, is_dir: bool) -> Seq<
    char,
> {
    match file_name {
        Some(name) => marked_name(name, is_dir),
        None => marked_name(path, is_dir),
    }
}

/// The display name of an entry whose path is `path` and whose final component,
/// if the path has one, is `file_name`.
pub fn short_name_from(file_name: Option<String>, path: &str, is_dir: bool) -> (name: String)
    ensures
        name@ == short_name(
            match file_name {
                Some(n) => Some(n@),
                None => None,
            },
            path@,
            is_dir,
        ),
{
    match file_name {
        Some(name) => add_slash_if_needed(name, is_dir),
        None => full_name_from_path(path, is_dir),
    }
}

/// The display name of an entry below a root: the final component of its path.
pub fn short_name_from_path(path: &str, is_dir: bool) -> (name: String)
    ensures
        name@ == short_name(file_name_of(path@), path@, is_dir),
{
    short_name_from(file_name(path), path, is_dir)
}

/// Why reading a path failed.
#[derive(Debug, PartialEq, Eq, Clone, Copy, Structural)]
pub enum ErrorKind {
    /// Nothing is at the path.
    NotFound,
    /// What is at the path may not be read.
    PermissionDenied,
    /// Reading took too long.
    TimedOut,
    /// Reading was interrupted.
    Interrupted,
    /// Any other failure.
    Unrecognized,
}

/// The words for a failure.
pub open spec fn description(error: ErrorKind) -> Seq<char> {
    match error {
        ErrorKind::NotFound => "File not found"@,
        ErrorKind::PermissionDenied => "Permission denied"@,
        ErrorKind::TimedOut => "Timed out"@,
        ErrorKind::Interrupted => "Interrupted"@,
        ErrorKind::Unrecognized => "Unrecognized error"@,
    }
}

/// The words for a failure.
pub fn describe_io_error(error: ErrorKind) -> (words: String)
    ensures
        words@ == description(error),
{
    match error {
        ErrorKind::NotFound => "File not found",
        ErrorKind::PermissionDenied => "Permission denied",
        ErrorKind::TimedOut => "Timed out",
        ErrorKind::Interrupted => "Interrupted",
        ErrorKind::Unrecognized => "Unrecognized error",
    }.to_owned()
}

/// The sizes below this number of bytes are shown in bytes.
pub const KILO_CUTOFF: u64 = 600;

/// The sizes up to this number of bytes are shown in thousands of bytes.
pub const MEGA_CUTOFF: u64 = 1_400_000;

/// The sizes up to this number of bytes are shown in millions of bytes.
pub const GIGA_CUTOFF: u64 = 1_400_000_000;

/// `size / unit` with two decimals, rounded as `hundredths` rounds.
pub open spec fn scaled_text(size: nat, unit: nat) -> Seq<char> {
    let h = hundredths(size, unit);
    decimal(h / 100) + seq!['.', digit_char(h / 10 % 10), digit_char(h % 10)]
}

/// A size in words: in bytes below 600 bytes, in thousands of bytes up to
/// 1,400,000 bytes, in millions up to 1,400,000,000 bytes, and in thousands of
/// millions above.
pub open spec fn size_text(size: nat) -> Seq<char> {
    if size < KILO_CUTOFF {
        decimal(size) + seq![' ', 'B']
    } else if size <= MEGA_CUTOFF {
        scaled_text(size, 1_000) + seq![' ', 'k', 'B']
    } else if size <= GIGA_CUTOFF {
        scaled_text(size, 1_000_000) + seq![' ', 'M', 'B']
    } else {
        scaled_text(size, 1_000_000_000) + seq![' ', 'G', 'B']
    }
}

/// `size / unit` with two decimals, followed by `suffix`.
fn scaled(size: u64, unit: u64, suffix: &str) -> (text: String)
    requires
        0 < unit <= 1_000_000_000,
    ensures
        text@ == scaled_text(size as nat, unit as nat) + suffix@,
{
    let h = hundredths_of(size, unit);
    let mut text = String::new();
    append_decimal(&mut text, h / 100);
    proof {
        reveal_strlit(".");
    }
    text.append(".");
    text.append(digit_text((h / 10 % 10) as u8));
    text.append(digit_text((h % 10) as u8));
    text.append(suffix);
    assert(text@ =~= scaled_text(size as nat, unit as nat) + suffix@);
    text
}

/// A size that can be put in words.
pub trait SizeDisplay {
    /// The size in words.
    spec fn size_display(&self) -> Seq<char>;

    /// The size in words.
    fn as_size_display(&self) -> (words: String)
        ensures
            words@ == self.size_display(),
    ;
}

impl SizeDisplay for u64 {
    open spec fn size_display(&self) -> Seq<char> {
        size_text(*self as nat)
    }

    fn as_size_display(&self) -> (words: String) {
        let size = *self;
        assert(self.size_display() == size_text(size as nat));
        if size < KILO_CUTOFF {
            let mut words = String::new();
            append_decimal(&mut words, size as u128);
            proof {
                reveal_strlit(" B");
            }
            words.append(" B");
            assert(words@ =~= decimal(size as nat) + seq![' ', 'B']);
            words
        } else if size <= MEGA_CUTOFF {
            proof {
                reveal_strlit(" kB");
            }
            assert(" kB"@ =~= seq![' ', 'k', 'B']);
            let words = scaled(size, 1_000, " kB");
            assert(words@ == scaled_text(size as nat, 1_000) + seq![' ', 'k', 'B']);
            words
        } else if size <= GIGA_CUTOFF {
            proof {
                reveal_strlit(" MB");
            }
            assert(" MB"@ =~= seq![' ', 'M', 'B']);
            let words = scaled(size, 1_000_000, " MB");
            assert(words@ == scaled_text(size as nat, 1_000_000) + seq![' ', 'M', 'B']);
            words
        } else {
            proof {
                reveal_strlit(" GB");
            }
            assert(" GB"@ =~= seq![' ', 'G', 'B']);
            let words = scaled(size, 1_000_000_000, " GB");
            assert(words@ == scaled_text(size as nat, 1_000_000_000) + seq![' ', 'G', 'B']);
            words
        }
    }
}

} // verus!
