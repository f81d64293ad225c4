//! Paths, as text with slashes in it.

use crate::order::same_text;
use crate::text::{after_field, chars_of, field_end, field_of, push_str};
use vstd::prelude::*;

verus! {

/// Whether one text ends with a slash.
pub open spec fn ends_in_slash(s: Seq<char>) -> bool {
    s.len() > 0 && s.last() == '/'
}

/// A path with a part joined to it. A part that starts at the root stands
/// alone.
pub open spec fn joined(base: Seq<char>, part: Seq<char>) -> Seq<char> {
    if part.len() > 0 && part[0] == '/' {
        part
    } else if base.len() == 0 || ends_in_slash(base) {
        base + part
    } else {
        base + seq!['/'] + part
    }
}

/// A path with a part joined to it.
pub fn join(base: &str, part: &str) -> (s: String)
    ensures
        s@ == joined(base@, part@),
{
    let b = chars_of(base);
    let p = chars_of(part);
    if p.len() > 0 && p[0] == '/' {
        return part.to_owned();
    }
    let mut s: String = base.to_owned();
    if b.len() > 0 && b[b.len() - 1] != '/' {
        s.push('/');
    }
    push_str(&mut s, part);
    assert(s@ =~= joined(base@, part@));
    s
}

/// Whether a component names something: not nothing, and not the directory
/// itself.
pub open spec fn is_named(c: Seq<char>) -> bool {
    c.len() > 0 && c != seq!['.']
}

/// The components of a path that name something.
pub open spec fn components(path: Seq<char>) -> Seq<Seq<char>>
    decreases path.len(),
{
    let c = field_of(path, '/');
    let first = if is_named(c) {
        seq![c]
    } else {
        Seq::empty()
    };
    match after_field(path, '/') {
        Some(rest) => first + components(rest),
        None => first,
    }
}

/// Partition and block name out of `.../<signal>/p=<hour>/<block>`: the last
/// two components, neither of which may step up.
pub open spec fn place_of(dir: Seq<char>) -> Option<(Seq<char>, Seq<char>)> {
    let c = components(dir);
    if c.len() >= 2 && c[c.len() - 1] != ".."@ && c[c.len() - 2] != ".."@ {
        Some((c[c.len() - 2], c[c.len() - 1]))
    } else {
        None
    }
}

pub(crate) fn piece(c: &Vec<char>, from: usize, to: usize) -> (s: String)
    requires
        from <= to <= c@.len(),
    ensures
        s@ == c@.subrange(from as int, to as int),
{
    let mut s: String = String::new();
    let mut i: usize = from;
    assert(s@ =~= c@.subrange(from as int, i as int));
    while i < to
        invariant
            from <= i <= to <= c@.len(),
            s@ == c@.subrange(from as int, i as int),
        decreases to - i,
    {
        s.push(c[i]);
        assert(s@ =~= c@.subrange(from as int, i + 1));
        i = i + 1;
    }
    s
}

/// The last component among some, and the one before it.
spec fn last_two(c: Seq<Seq<char>>) -> (Option<Seq<char>>, Option<Seq<char>>) {
    (
        if c.len() >= 2 {
            Some(c[c.len() - 2])
        } else {
            None
        },
        if c.len() >= 1 {
            Some(c[c.len() - 1])
        } else {
            None
        },
    )
}

pub(crate) open spec fn text_of(s: Option<String>) -> Option<Seq<char>> {
    match s {
        Some(s) => Some(s@),
        None => None,
    }
}

/// Partition and block name out of the path of a block directory.
pub fn split(dir: &str) -> (r: Option<(String, String)>)
    ensures
        r is Some <==> place_of(dir@) is Some,
        r matches Some((p, n)) ==> place_of(dir@) == Some((p@, n@)),
{
    let c = chars_of(dir);
    let ghost all = components(c@);
    let ghost mut seen: Seq<Seq<char>> = Seq::empty();
    let mut before: Option<String> = None;
    let mut last: Option<String> = None;
    let mut at: usize = 0;
    assert(c@.skip(0) =~= c@);
    assert(seen + components(c@.skip(0)) =~= all);
    loop
        invariant_except_break
            at <= c@.len(),
            all == seen + components(c@.skip(at as int)),
        invariant
            (text_of(before), text_of(last)) == last_two(seen),
        ensures
            seen == all,
        decreases c@.len() - at,
    {
        let end = field_end(c.as_slice(), at, '/');
        let ghost rest = c@.skip(at as int);
        let ghost f = field_of(rest, '/');
        assert(f =~= c@.subrange(at as int, end as int));
        let named = end > at && !(end == at + 1 && c[at] == '.');
        proof {
            if end == at + 1 {
                if c@[at as int] == '.' {
                    assert(f =~= seq!['.']);
                }
            }
            assert(named == is_named(f)) by {
                if f == seq!['.'] {
                    assert(f[0] == '.');
                    assert(f.len() == 1);
                }
            }
        }
        let ghost was = seen;
        if named {
            before = last;
            last = Some(piece(&c, at, end));
            proof {
                seen = seen.push(f);
            }
        }
        if end >= c.len() {
            assert(after_field(rest, '/') is None);
            assert(seen =~= was + components(rest));
            break;
        }
        assert(after_field(rest, '/') == Some(rest.skip(end - at + 1)));
        assert(rest.skip(end - at + 1) =~= c@.skip(end + 1));
        assert(seen + components(c@.skip(end + 1)) =~= was + components(rest));
        at = end + 1;
    }
    match (before, last) {
        (Some(p), Some(n)) => {
            if same_text(p.as_str(), "..") || same_text(n.as_str(), "..") {
                None
            } else {
                Some((p, n))
            }
        },
        _ => None,
    }
}

} // verus!
