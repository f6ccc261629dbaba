//! The names of the files that belong to a dictionary and to its cache,
//! and the path of a resource below the dictionary's directory.
use vstd::prelude::*;
use vstd::string::StringExecFns;
use crate::error::{Error, Result};
use crate::idx::strings_view;
use crate::text::{chars_before, chars_before_shift, chars_of, find_char, substring};

verus! {

/// The parts of `s` from `pos` on that its slashes part.
pub open spec fn split_path(s: Seq<char>, pos: int) -> Seq<Seq<char>>
    decreases
        (if pos < s.len() {
            s.len() - pos
        } else {
            0
        }),
{
    let end = pos + chars_before(s, pos, '/');
    if pos < 0 || end >= s.len() {
        seq![s.subrange(pos, s.len() as int)]
    } else {
        seq![s.subrange(pos, end)] + split_path(s, end + 1)
    }
}

/// The reference without the slash that it may start with.
pub open spec fn without_root(href: Seq<char>) -> Seq<char> {
    if href.len() > 0 && href[0] == '/' {
        href.subrange(1, href.len() as int)
    } else {
        href
    }
}

/// The path of a resource below the resource directory, part by part, or
/// `None` where the reference names nothing: it is empty or only a slash.
pub open spec fn resource_path(href: Seq<char>) -> Option<Seq<Seq<char>>> {
    if without_root(href).len() == 0 {
        None
    } else {
        Some(split_path(without_root(href), 0))
    }
}

/// The parts of the path of a resource below the resource directory.
pub fn resource_components(href: &str) -> (r: Option<Vec<String>>)
    ensures
        match r {
            Some(parts) => resource_path(href@) == Some(strings_view(parts@)),
            None => resource_path(href@) is None,
        },
{
    let chars = chars_of(href);
    let len: usize = chars.len();
    let start: usize = if len > 0 && chars[0] == '/' {
        1
    } else {
        0
    };
    if start == len {
        return None;
    }
    let ghost rest = without_root(href@);
    let mut parts: Vec<String> = Vec::new();
    let mut pos: usize = start;
    let mut done = false;
    proof {
        assert(rest =~= chars@.subrange(start as int, len as int));
        assert(strings_view(parts@) + split_path(rest, 0) =~= split_path(rest, 0));
    }
    while !done
        invariant
            start <= pos <= len == chars@.len(),
            rest == chars@.subrange(start as int, len as int),
            !done ==> strings_view(parts@) + split_path(rest, pos - start) == split_path(rest, 0),
            done ==> strings_view(parts@) == split_path(rest, 0),
        decreases
            len - pos + (if done {
                0int
            } else {
                1int
            }),
    {
        proof {
            assert(chars@.subrange(0, len as int) =~= chars@);
            chars_before_shift(chars@, start as int, pos as int, '/');
        }
        let end = find_char(&chars, pos, len, '/');
        let part = substring(&chars, pos, end);
        let ghost before = strings_view(parts@);
        parts.push(part);
        proof {
            assert(strings_view(parts@) =~= before.push(part@));
            assert(part@ =~= rest.subrange(pos - start, end - start));
            if end < len {
                let tail = split_path(rest, end + 1 - start);
                assert(before + (seq![part@] + tail) =~= before.push(part@) + tail);
            } else {
                assert(before + seq![part@] =~= before.push(part@));
            }
        }
        if end < len {
            pos = end + 1;
        } else {
            done = true;
        }
    }
    Some(parts)
}

/// The name of a cache file: the name of the dictionary's directory, a dot
/// and the suffix of the kind of cache.
pub fn cache_file_name(dict_name: &str, suffix: &str) -> (name: String)
    ensures
        name@ == dict_name@ + "."@ + suffix@,
{
    String::from_str(dict_name).concat(".").concat(suffix)
}

/// What the files of a dictionary have in common: the path of the `.ifo`
/// file without its extension. `None` where the path is too short to end
/// in one.
pub fn dict_prefix(ifo_path: &str) -> (r: Option<String>)
    ensures
        match r {
            Some(prefix) => ifo_path@.len() >= 4 && prefix@ == ifo_path@.subrange(
                0,
                ifo_path@.len() - 4,
            ),
            None => ifo_path@.len() < 4,
        },
{
    let chars = chars_of(ifo_path);
    if chars.len() < 4 {
        None
    } else {
        Some(substring(&chars, 0, chars.len() - 4))
    }
}

/// The path of the file of kind `name`, with the suffix of its compressed
/// form where `compressed` is set.
pub fn sub_file_name(prefix: &str, name: &str, compress_suffix: &str, compressed: bool) -> (path:
    String)
    ensures
        path@ == if compressed {
            prefix@ + "."@ + name@ + "."@ + compress_suffix@
        } else {
            prefix@ + "."@ + name@
        },
{
    let plain = String::from_str(prefix).concat(".").concat(name);
    if compressed {
        plain.concat(".").concat(compress_suffix)
    } else {
        plain
    }
}

/// Which form of a required file is taken: the plain one where it exists,
/// else the compressed one; the result says whether it is the compressed
/// one. Where neither exists the file is missing.
pub fn pick_sub_file(name: &'static str, plain_exists: bool, compressed_exists: bool) -> (r: Result<
    bool,
>)
    ensures
        match r {
            Ok(compressed) => (plain_exists || compressed_exists) && compressed == !plain_exists,
            Err(e) => !plain_exists && !compressed_exists && e == Error::NoFileFound(name),
        },
{
    if plain_exists {
        Ok(false)
    } else if compressed_exists {
        Ok(true)
    } else {
        Err(Error::NoFileFound(name))
    }
}

} // verus!
