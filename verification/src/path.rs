//! The names of the picture files: which name is a PNG's, and which name a
//! picture is written under.
//!
//! Names are taken as their UTF-8 bytes; the bytes named here are ASCII.

use vstd::prelude::*;
use vstd::utf8::encode_utf8;

verus! {

/// The byte of `.`.
pub const DOT: u8 = 46;

/// The bytes of `.png`.
pub open spec fn png_suffix() -> Seq<u8> {
    seq![46u8, 112u8, 110u8, 103u8]
}

/// Whether a name ends in `.png`.
pub open spec fn ends_in_png(name: Seq<u8>) -> bool {
    name.len() >= 4 && name.subrange(name.len() - 4, name.len() as int) == png_suffix()
}

/// Whether `at` is where the last dot of a name stands.
pub open spec fn is_last_dot(name: Seq<u8>, at: int) -> bool {
    &&& 0 <= at < name.len()
    &&& name[at] == DOT
    &&& forall|j: int| at < j < name.len() ==> name[j] != DOT
}

/// Whether a name holds no dot.
pub open spec fn dotless(name: Seq<u8>) -> bool {
    forall|j: int| 0 <= j < name.len() ==> name[j] != DOT
}

/// How much of a name is kept in front of `.png` when the picture is
/// written: all of it without a dot, else what stands before the last dot.
/// A name that ends in `.png` is kept as it is, which `None` says.
pub open spec fn is_png_stem(name: Seq<u8>, stem: Option<int>) -> bool {
    match stem {
        None => ends_in_png(name),
        Some(n) => !ends_in_png(name) && if n == name.len() {
            dotless(name)
        } else {
            is_last_dot(name, n)
        },
    }
}

/// Whether the name ends in `.png`.
pub fn has_png_extension(name: &str) -> (png: bool)
    ensures
        png == ends_in_png(encode_utf8(name@)),
{
    let bytes = name.as_bytes();
    let len = bytes.len();
    if len < 4 {
        return false;
    }
    let png = bytes[len - 4] == DOT && bytes[len - 3] == 112 && bytes[len - 2] == 110 && bytes[len
        - 1] == 103;
    proof {
        let tail = bytes@.subrange(len - 4, len as int);
        if png {
            assert(tail =~= png_suffix());
        } else {
            assert(tail[0] == bytes@[len - 4]);
            assert(tail[1] == bytes@[len - 3]);
            assert(tail[2] == bytes@[len - 2]);
            assert(tail[3] == bytes@[len - 1]);
        }
    }
    png
}

/// Where the last dot of the name stands, if it has one.
pub fn last_dot(name: &str) -> (dot: Option<usize>)
    ensures
        match dot {
            Some(at) => is_last_dot(encode_utf8(name@), at as int),
            None => dotless(encode_utf8(name@)),
        },
{
    let bytes = name.as_bytes();
    let mut i: usize = bytes.len();
    while i > 0
        invariant
            i <= bytes@.len(),
            bytes@ == encode_utf8(name@),
            forall|j: int| i <= j < bytes@.len() ==> bytes@[j] != DOT,
        decreases i,
    {
        i = i - 1;
        if bytes[i] == DOT {
            return Some(i);
        }
    }
    None
}

/// How many bytes of the name stand in front of `.png` in the name that the
/// picture is written under, or `None` where the name itself is used.
pub fn png_stem_len(name: &str) -> (stem: Option<usize>)
    ensures
        is_png_stem(
            encode_utf8(name@),
            match stem {
                Some(n) => Some(n as int),
                None => None,
            },
        ),
        stem matches Some(n) ==> n <= encode_utf8(name@).len(),
{
    if has_png_extension(name) {
        None
    } else {
        match last_dot(name) {
            Some(at) => Some(at),
            None => Some(name.as_bytes().len()),
        }
    }
}

} // verus!
