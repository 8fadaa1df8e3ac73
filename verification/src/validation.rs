//! Input validation: path-traversal checks, name rules and content size
//! limits. Length caps and reserved characters are byte checks (the
//! reserved characters are ASCII); control and whitespace rules are decided
//! on the decoded Unicode character.

use vstd::prelude::*;
use crate::text::{control_at, control_at_exec, ws_at, ws_at_exec, ws_before, ws_before_exec};

verus! {

/// Maximum length for names, in bytes.
pub const MAX_NAME_LENGTH: usize = 256;

/// Maximum content size, in bytes (10 MB).
pub const MAX_CONTENT_LENGTH: usize = 10 * 1024 * 1024;

/// A failed validation, with a human-readable reason.
#[derive(Debug)]
pub struct ValidationError {
    pub reason: String,
}

/// The bytes `..` occur somewhere in `s`.
pub open spec fn has_dotdot(s: Seq<u8>) -> bool {
    exists|i: int| 0 <= i && i + 1 < s.len() && (#[trigger] s[i]) == 46 && s[i + 1] == 46
}

/// The byte `b` occurs in `s`.
pub open spec fn has_byte(s: Seq<u8>, b: u8) -> bool {
    exists|i: int| 0 <= i < s.len() && (#[trigger] s[i]) == b
}

/// A byte not allowed in names: `<`, `>`, `:`, `"`, `|`, `?`, `*` or NUL.
/// These are ASCII, so the byte test and the character test agree on any
/// UTF-8 input.
pub open spec fn is_invalid_name_byte(b: u8) -> bool {
    b == 60 || b == 62 || b == 58 || b == 34 || b == 124 || b == 63 || b == 42 || b == 0
}

/// A name is acceptable: non-empty, within the length cap, free of control
/// characters and reserved bytes, and neither beginning nor ending with a
/// whitespace character.
pub open spec fn name_ok(s: Seq<u8>) -> bool {
    &&& s.len() > 0
    &&& s.len() <= MAX_NAME_LENGTH
    &&& (forall|i: int| 0 <= i < s.len() ==> !control_at(s, i))
    &&& (forall|i: int| 0 <= i < s.len() ==> !is_invalid_name_byte(#[trigger] s[i]))
    &&& !ws_at(s, 0)
    &&& !ws_before(s, s.len() as int)
}

/// Rejects any path holding a `..` sequence, which could escape the
/// project directory.
pub fn validate_path(path: &[u8]) -> (r: Result<(), ValidationError>)
    ensures
        r is Ok <==> !has_dotdot(path@),
{
    let n = path.len();
    let mut i: usize = 0;
    while n >= 1 && i < n - 1
        invariant
            n == path@.len(),
            i <= n,
            forall|j: int|
                0 <= j < i && j + 1 < n ==> !((#[trigger] path@[j]) == 46 && path@[j + 1] == 46),
        decreases n - i,
    {
        if path[i] == 46 && path[i + 1] == 46 {
            proof {
                assert((path@[i as int]) == 46 && path@[i + 1] == 46);
                assert(has_dotdot(path@));
            }
            return Err(
                ValidationError {
                    reason: "Path traversal not allowed: '..' sequences are forbidden".to_owned(),
                },
            );
        }
        i = i + 1;
    }
    proof {
        assert(!has_dotdot(path@)) by {
            if has_dotdot(path@) {
                let j = choose|j: int|
                    0 <= j && j + 1 < path@.len() && (#[trigger] path@[j]) == 46 && path@[j + 1]
                        == 46;
                assert(!(path@[j] == 46 && path@[j + 1] == 46));
            }
        }
    }
    Ok(())
}

/// Validates a display name: non-empty, at most `MAX_NAME_LENGTH` bytes,
/// free of control and reserved filesystem bytes, and trimmed of leading
/// and trailing whitespace.
pub fn validate_name(name: &[u8]) -> (r: Result<(), ValidationError>)
    ensures
        r is Ok <==> name_ok(name@),
{
    let n = name.len();
    if n == 0 {
        return Err(ValidationError { reason: "Name cannot be empty".to_owned() });
    }
    if n > MAX_NAME_LENGTH {
        return Err(ValidationError { reason: "Name exceeds the maximum length".to_owned() });
    }
    let mut i: usize = 0;
    while i < n
        invariant
            n == name@.len(),
            i <= n,
            forall|j: int| 0 <= j < i ==> !control_at(name@, j),
        decreases n - i,
    {
        if control_at_exec(name, i) {
            proof {
                assert(control_at(name@, i as int));
                assert(!name_ok(name@));
            }
            return Err(
                ValidationError { reason: "Name contains invalid control characters".to_owned() },
            );
        }
        i = i + 1;
    }
    let mut i2: usize = 0;
    while i2 < n
        invariant
            n == name@.len(),
            i2 <= n,
            forall|j: int| 0 <= j < i2 ==> !is_invalid_name_byte(#[trigger] name@[j]),
        decreases n - i2,
    {
        let c = name[i2];
        if c == 60 || c == 62 || c == 58 || c == 34 || c == 124 || c == 63 || c == 42 || c == 0 {
            proof {
                assert(is_invalid_name_byte(name@[i2 as int]));
                assert(!name_ok(name@));
            }
            return Err(ValidationError { reason: "Name contains invalid characters".to_owned() });
        }
        i2 = i2 + 1;
    }
    if ws_at_exec(name, 0) || ws_before_exec(name, n) {
        return Err(
            ValidationError { reason: "Name cannot start or end with whitespace".to_owned() },
        );
    }
    Ok(())
}

/// Validates content size against the 10 MB cap.
pub fn validate_content_size(content: &[u8]) -> (r: Result<(), ValidationError>)
    ensures
        r is Ok <==> content@.len() <= MAX_CONTENT_LENGTH,
{
    if content.len() > MAX_CONTENT_LENGTH {
        return Err(ValidationError { reason: "Content exceeds the maximum size".to_owned() });
    }
    Ok(())
}

/// Validates a flat filename: no `..` sequences and no path separators, so
/// a note stays inside its folder.
pub fn validate_filename(name: &[u8]) -> (r: Result<(), ValidationError>)
    ensures
        r is Ok <==> (!has_dotdot(name@) && !has_byte(name@, 47) && !has_byte(name@, 92)),
{
    let n = name.len();
    let mut i: usize = 0;
    while i < n
        invariant
            n == name@.len(),
            i <= n,
            forall|j: int| 0 <= j < i ==> (#[trigger] name@[j]) != 47 && name@[j] != 92,
            forall|j: int|
                0 <= j < i && j + 1 < n ==> !((#[trigger] name@[j]) == 46 && name@[j + 1] == 46),
        decreases n - i,
    {
        let c = name[i];
        if c == 47 || c == 92 {
            proof {
                assert((name@[i as int]) == c);
                assert(has_byte(name@, c));
            }
            return Err(
                ValidationError {
                    reason: "Invalid name: path traversal and subdirectories are not allowed".to_owned(),
                },
            );
        }
        if c == 46 && i + 1 < n && name[i + 1] == 46 {
            proof {
                assert((name@[i as int]) == 46 && name@[i + 1] == 46);
                assert(has_dotdot(name@));
            }
            return Err(
                ValidationError {
                    reason: "Invalid name: path traversal and subdirectories are not allowed".to_owned(),
                },
            );
        }
        i = i + 1;
    }
    proof {
        assert(!has_dotdot(name@)) by {
            if has_dotdot(name@) {
                let j = choose|j: int|
                    0 <= j && j + 1 < name@.len() && (#[trigger] name@[j]) == 46 && name@[j + 1]
                        == 46;
                assert(!(name@[j] == 46 && name@[j + 1] == 46));
            }
        }
        assert(!has_byte(name@, 47)) by {
            if has_byte(name@, 47) {
                let j = choose|j: int| 0 <= j < name@.len() && (#[trigger] name@[j]) == 47;
            }
        }
        assert(!has_byte(name@, 92)) by {
            if has_byte(name@, 92) {
                let j = choose|j: int| 0 <= j < name@.len() && (#[trigger] name@[j]) == 92;
            }
        }
    }
    Ok(())
}

} // verus!
