//! Paths as the bytes that name them.

use vstd::prelude::*;
use vstd::utf8;

verus! {

/// The path `rest`, taken from the directory `base`.
pub open spec fn joined(base: Seq<u8>, rest: Seq<u8>) -> Seq<u8> {
    if rest.len() > 0 && rest[0] == 0x2f {
        rest
    } else if base.len() == 0 || base.last() == 0x2f {
        base + rest
    } else {
        base.push(0x2f) + rest
    }
}

/// The path `rest`, taken from the directory `base`
pub fn join(base: &[u8], rest: &[u8]) -> (path: Vec<u8>)
    ensures
        path@ == joined(base@, rest@),
{
    let mut path: Vec<u8> = Vec::new();
    if rest.len() == 0 || rest[0] != 0x2f {
        path.extend_from_slice(base);
        if base.len() > 0 && base[base.len() - 1] != 0x2f {
            path.push(0x2f);
        }
    }
    path.extend_from_slice(rest);
    assert(path@ =~= joined(base@, rest@));
    path
}

/// The path of `file` in the base directory of its kind: the one that is set, or else `fallback` in
/// the home directory.
pub open spec fn base_joined(
    base: Option<Seq<u8>>,
    home: Option<Seq<u8>>,
    fallback: Seq<char>,
    file: Seq<char>,
) -> Seq<u8> {
    joined(
        match base {
            Some(base) => base,
            None => joined(
                match home {
                    Some(home) => home,
                    None => Seq::empty(),
                },
                utf8::encode_utf8(fallback),
            ),
        },
        utf8::encode_utf8(file),
    )
}

/// The bytes of a path that may be missing.
pub open spec fn option_view(path: Option<Vec<u8>>) -> Option<Seq<u8>> {
    match path {
        Some(path) => Some(path@),
        None => None,
    }
}

/// The path of `file` in the base directory of its kind: the one that is set, or else `fallback` in
/// the home directory
pub fn join_base(
    base: &Option<Vec<u8>>,
    home: &Option<Vec<u8>>,
    fallback: &str,
    file: &str,
) -> (path: Vec<u8>)
    ensures
        path@ == base_joined(option_view(*base), option_view(*home), fallback@, file@),
{
    match base {
        Some(base) => join(base.as_slice(), file.as_bytes()),
        None => {
            let nowhere: Vec<u8> = Vec::new();
            let home = match home {
                Some(home) => home,
                None => &nowhere,
            };
            let base = join(home.as_slice(), fallback.as_bytes());
            join(base.as_slice(), file.as_bytes())
        },
    }
}

} // verus!
