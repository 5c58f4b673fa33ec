//! Input validation, hash rendering and the OS user lookup.
use crate::text::{chars_of, concat3, contains_char};
use vstd::prelude::*;
use vstd::string::StringExecFns;

verus! {

/// A Merkle digest.
pub type HashRes = [u8; 32];

/// Errors in user-supplied ids, names and tags.
#[derive(Debug)]
pub enum InputError {
    /// The id is not of the form `name@tag` with both parts non-empty.
    IllegalId(String),
    /// The name or the tag is empty.
    EmptyNameTag,
    /// The name or the tag holds `@`.
    NameTagContainsAt,
}

/// The text of an input error.
pub open spec fn input_error_text(e: InputError) -> Seq<char> {
    match e {
        InputError::IllegalId(m) => m@,
        InputError::EmptyNameTag => "name/tag should not be empty"@,
        InputError::NameTagContainsAt => "name/tag should not contain '@'"@,
    }
}

impl InputError {
    /// The human-readable text of this error.
    pub fn message(&self) -> (r: String)
        ensures
            r@ == input_error_text(*self),
    {
        match self {
            InputError::IllegalId(m) => m.clone(),
            InputError::EmptyNameTag => String::from_str("name/tag should not be empty"),
            InputError::NameTagContainsAt => String::from_str("name/tag should not contain '@'"),
        }
    }
}

/// Looks up the name of the OS user running this process (`whoami::username`).
/// Nothing is stated of the result: it depends on the environment of the process.
#[verifier::external_body]
pub(crate) fn os_username() -> (r: Result<String, String>) {
    whoami::username().map_err(|e| e.to_string())
}

/// The lowercase hexadecimal digit of a nibble.
pub open spec fn hex_digit(n: int) -> char {
    if n < 10 {
        ((n + 48) as u32) as char
    } else {
        ((n + 87) as u32) as char
    }
}

/// Lowercase hexadecimal rendering of a byte string, two digits per byte, high nibble first.
pub open spec fn hex_of(bytes: Seq<u8>) -> Seq<char>
    decreases bytes.len(),
{
    if bytes.len() == 0 {
        Seq::empty()
    } else {
        hex_of(bytes.drop_last()) + seq![
            hex_digit(bytes.last() as int / 16),
            hex_digit(bytes.last() as int % 16),
        ]
    }
}

fn nibble_str(n: u8) -> (s: &'static str)
    requires
        n < 16,
    ensures
        s@ == seq![hex_digit(n as int)],
{
    proof {
        reveal_strlit("0");
        reveal_strlit("1");
        reveal_strlit("2");
        reveal_strlit("3");
        reveal_strlit("4");
        reveal_strlit("5");
        reveal_strlit("6");
        reveal_strlit("7");
        reveal_strlit("8");
        reveal_strlit("9");
        reveal_strlit("a");
        reveal_strlit("b");
        reveal_strlit("c");
        reveal_strlit("d");
        reveal_strlit("e");
        reveal_strlit("f");
    }
    let s = match n {
        0 => "0",
        1 => "1",
        2 => "2",
        3 => "3",
        4 => "4",
        5 => "5",
        6 => "6",
        7 => "7",
        8 => "8",
        9 => "9",
        10 => "a",
        11 => "b",
        12 => "c",
        13 => "d",
        14 => "e",
        _ => "f",
    };
    assert(s@ =~= seq![hex_digit(n as int)]);
    s
}

/// Lowercase hex of a digest: 64 characters.
pub fn hashres_to_hex(bytes: HashRes) -> (r: String)
    ensures
        r@ == hex_of(bytes@),
        r@.len() == 64,
{
    let mut out = String::new();
    let mut i: usize = 0;
    while i < 32
        invariant
            i <= 32,
            bytes@.len() == 32,
            out@ == hex_of(bytes@.subrange(0, i as int)),
            out@.len() == 2 * i,
        decreases 32 - i,
    {
        let b = bytes[i];
        let hi = nibble_str(b / 16);
        let lo = nibble_str(b % 16);
        out.append(hi);
        out.append(lo);
        proof {
            let pre = bytes@.subrange(0, i as int);
            let post = bytes@.subrange(0, i + 1);
            assert(post.drop_last() =~= pre);
            assert(post.last() == b);
        }
        i = i + 1;
    }
    assert(bytes@.subrange(0, 32) =~= bytes@);
    out
}

/// `s` is `name@tag`: exactly one `@`, neither first nor last.
pub open spec fn is_dataset_id(s: Seq<char>) -> bool {
    exists|i: int|
        0 < i < s.len() - 1 && #[trigger] s[i] == '@' && forall|k: int|
            0 <= k < s.len() && k != i ==> s[k] != '@'
}

/// Checks that an id is of the form `name@tag`, both parts non-empty.
pub fn validate_dataset_id(id: &str) -> (r: Result<(), InputError>)
    ensures
        r is Ok <==> is_dataset_id(id@),
        r matches Err(e) ==> (e matches InputError::IllegalId(m) && m@ == "Illegal id: "@ + id@ + "，must be in form name@tag"@),
{
    let v = chars_of(id);
    let mut count: usize = 0;
    let mut pos: usize = 0;
    let mut i: usize = 0;
    while i < v.len()
        invariant
            v@ == id@,
            i <= v@.len(),
            count <= i,
            count == 0 ==> forall|k: int| 0 <= k < i ==> v@[k] != '@',
            count >= 1 ==> pos < i && v@[pos as int] == '@',
            count == 1 ==> forall|k: int| 0 <= k < i && k != pos ==> v@[k] != '@',
            count >= 2 ==> exists|k: int| 0 <= k < i && k != pos && v@[k] == '@',
        decreases v@.len() - i,
    {
        if v[i] == '@' {
            if count == 0 {
                pos = i;
            }
            count = if count < 2 { count + 1 } else { 2 };
        }
        i = i + 1;
    }
    if count == 1 && pos > 0 && pos + 1 < v.len() {
        assert(id@[pos as int] == '@');
        Ok(())
    } else {
        assert(!is_dataset_id(id@)) by {
            if is_dataset_id(id@) {
                let w = choose|w: int|
                    0 < w < id@.len() - 1 && #[trigger] id@[w] == '@' && forall|k: int|
                        0 <= k < id@.len() && k != w ==> id@[k] != '@';
                if count >= 2 {
                    let k2 = choose|k: int| 0 <= k < i && k != pos && v@[k] == '@';
                    assert(k2 == w);
                    assert(pos == w);
                }
            }
        }
        let msg = concat3("Illegal id: ", id, "，must be in form name@tag");
        Err(InputError::IllegalId(msg))
    }
}

/// Checks that name and tag are non-empty and hold no `@`.
pub fn validate_name_tag(name: &str, tag: &str) -> (r: Result<(), InputError>)
    ensures
        r is Ok <==> (name@.len() > 0 && tag@.len() > 0 && !name@.contains('@') && !tag@.contains(
            '@',
        )),
        r == Err::<(), InputError>(InputError::EmptyNameTag) <==> (name@.len() == 0 || tag@.len()
            == 0),
        r == Err::<(), InputError>(InputError::NameTagContainsAt) <==> (name@.len() > 0
            && tag@.len() > 0 && (name@.contains('@') || tag@.contains('@'))),
{
    let n = chars_of(name);
    let t = chars_of(tag);
    if n.len() == 0 || t.len() == 0 {
        return Err(InputError::EmptyNameTag);
    }
    if contains_char(name, '@') || contains_char(tag, '@') {
        return Err(InputError::NameTagContainsAt);
    }
    Ok(())
}

} // verus!
