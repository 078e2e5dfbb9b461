//! Names of global session directories: a project's absolute path with every
//! character but ASCII letters, digits and `-` replaced by `-`.

use vstd::prelude::*;
use vstd::string::*;

use crate::path::FilePath;
use crate::text::ascii_alphanumeric;
use crate::text::chars_of;
use crate::text::is_ascii_alphanumeric;

verus! {

/// Why a path has no encoded form.
#[derive(Debug)]
pub enum EncoderError {
    /// The path is not absolute.
    RelativePath(String),
}

impl EncoderError {
    pub open spec fn text(&self) -> Seq<char> {
        match self {
            EncoderError::RelativePath(path) => "path must be absolute, got: "@ + path@,
        }
    }

    /// The message for a reader.
    pub fn message(&self) -> (r: String)
        ensures
            r@ == self.text(),
    {
        match self {
            EncoderError::RelativePath(path) => {
                let mut r = "path must be absolute, got: ".to_owned();
                r.append(path.as_str());
                r
            },
        }
    }
}

/// A character that the encoding keeps.
pub open spec fn kept(c: char) -> bool {
    ascii_alphanumeric(c) || c == '-'
}

/// `s` without one separator at its end, unless it is nothing else.
pub open spec fn without_trailing_slash(s: Seq<char>) -> Seq<char> {
    if s.len() > 1 && s.last() == '/' {
        s.drop_last()
    } else {
        s
    }
}

/// The encoded form of the absolute path `s`.
pub open spec fn encoded(s: Seq<char>) -> Seq<char> {
    without_trailing_slash(s).map_values(
        |c: char|
            if kept(c) {
                c
            } else {
                '-'
            },
    )
}

/// Encodes an absolute path, and refuses any other.
pub fn encode(path: &FilePath) -> (r: Result<String, EncoderError>)
    ensures
        r is Ok <==> path@.len() > 0 && path@[0] == '/',
        r matches Ok(name) ==> name@ == encoded(path@),
        r matches Err(EncoderError::RelativePath(text)) ==> text@ == path@,
{
    if !path.is_absolute() {
        return Err(EncoderError::RelativePath(path.as_str().to_owned()));
    }
    let chars = chars_of(path.as_str());
    let end: usize = if chars.len() > 1 && chars[chars.len() - 1] == '/' {
        chars.len() - 1
    } else {
        chars.len()
    };
    let ghost body = without_trailing_slash(path@);
    let mut name = String::new();
    let mut i: usize = 0;
    while i < end
        invariant
            chars@ == path@,
            body == without_trailing_slash(path@),
            body.len() == end <= chars@.len(),
            i <= end,
            name@ == encoded(path@).take(i as int),
        decreases end - i,
    {
        let c: char = chars[i];
        if is_ascii_alphanumeric(c) || c == '-' {
            name.push(c);
        } else {
            name.push('-');
        }
        i = i + 1;
        assert(encoded(path@).take(i as int) =~= encoded(path@).take(i - 1).push(
            encoded(path@)[i - 1],
        ));
    }
    assert(encoded(path@).take(end as int) =~= encoded(path@));
    Ok(name)
}

/// An encoded path holds ASCII letters, digits and `-` only, one for each
/// character that it stands for.
pub proof fn law_encoded_alphabet(s: Seq<char>)
    ensures
        encoded(s).len() == without_trailing_slash(s).len(),
        forall|i: int| 0 <= i < encoded(s).len() ==> kept(#[trigger] encoded(s)[i]),
{
}

/// The encoding leaves letters, digits and `-` where they stand.
pub proof fn law_encoded_keeps(s: Seq<char>, i: int)
    requires
        0 <= i < encoded(s).len(),
        kept(s[i]),
    ensures
        encoded(s)[i] == s[i],
{
}

/// A separator at the end of a path does not change its encoded form.
pub proof fn law_encoded_trailing_slash(s: Seq<char>)
    requires
        s.len() > 0,
        s.last() != '/' || s.len() == 1,
    ensures
        encoded(s.push('/')) == encoded(s),
{
    assert(s.push('/').drop_last() =~= s);
}

} // verus!
