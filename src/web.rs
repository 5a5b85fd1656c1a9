//! Small decisions of the web pages: which navigation bar to show, and the
//! cookies a request carries.

use vstd::prelude::*;
use crate::order::compare_keys;

verus! {

/// The navigation bar for a visitor: `logged_in` when they are logged in,
/// else `plain`.
pub fn get_navbar<'a>(logged: bool, plain: &'a String, logged_in: &'a String) -> (r: &'a String)
    ensures
        r@ == if logged { logged_in@ } else { plain@ },
{
    if logged {
        logged_in
    } else {
        plain
    }
}

/// The value of the first cookie named `cookie_name`.
pub fn get_cookie_value(cookies: &Vec<(String, String)>, cookie_name: &str) -> (r: Option<String>)
    ensures
        r is None <==> forall|i: int| 0 <= i < cookies@.len() ==> (#[trigger] cookies@[i]).0@ != cookie_name@,
        r matches Some(v) ==> exists|i: int| 0 <= i < cookies@.len() && (#[trigger] cookies@[i]).0@ == cookie_name@
            && v@ == cookies@[i].1@ && forall|j: int| 0 <= j < i ==> (#[trigger] cookies@[j]).0@ != cookie_name@,
{
    let mut i: usize = 0;
    while i < cookies.len()
        invariant
            i <= cookies@.len(),
            forall|j: int| 0 <= j < i ==> (#[trigger] cookies@[j]).0@ != cookie_name@,
        decreases cookies.len() - i,
    {
        if let core::cmp::Ordering::Equal = compare_keys(cookies[i].0.as_str(), cookie_name) {
            return Some(cookies[i].1.clone());
        }
        i = i + 1;
    }
    None
}

/// `s` cut at every `sep`: the pieces between separators, in order, empty
/// ones included, so there is always one more piece than separators.
pub open spec fn split_char(s: Seq<char>, sep: char) -> Seq<Seq<char>>
    decreases s.len(),
{
    if s.len() == 0 {
        seq![Seq::<char>::empty()]
    } else {
        let rest = split_char(s.drop_last(), sep);
        if s.last() == sep {
            rest.push(Seq::<char>::empty())
        } else {
            rest.update(rest.len() - 1, rest.last().push(s.last()))
        }
    }
}

/// `s` without leading and trailing white space.
pub uninterp spec fn trimmed(s: Seq<char>) -> Seq<char>;

/// Relies on `str::trim`: the result depends on the characters of `s` alone.
#[verifier::external_body]
fn trim_owned(s: &str) -> (r: String)
    ensures
        r@ == trimmed(s@),
{
    s.trim().to_string()
}

/// Cuts `s` at every `sep`.
pub fn split_on(s: &str, sep: char) -> (r: Vec<String>)
    ensures
        r@.map_values(|p: String| p@) == split_char(s@, sep),
{
    let n = s.unicode_len();
    let mut pieces: Vec<String> = Vec::new();
    let mut start: usize = 0;
    let mut i: usize = 0;
    proof {
        assert(s@.take(0) =~= Seq::<char>::empty());
        assert(split_char(Seq::<char>::empty(), sep) == seq![Seq::<char>::empty()]);
        assert(pieces@.map_values(|p: String| p@).push(s@.subrange(0, 0)) =~= seq![Seq::<char>::empty()]);
    }
    while i < n
        invariant
            n == s@.len(),
            start <= i <= n,
            pieces@.map_values(|p: String| p@).push(s@.subrange(start as int, i as int)) == split_char(s@.take(i as int), sep),
        decreases n - i,
    {
        let c = s.get_char(i);
        let ghost before = pieces@.map_values(|p: String| p@);
        proof {
            assert(s@.take(i + 1).drop_last() =~= s@.take(i as int));
            assert(s@.take(i + 1).last() == c);
        }
        let ghost old_start = start;
        if c == sep {
            let piece = s.substring_char(start, i);
            pieces.push(String::from_str(piece));
            start = i + 1;
            proof {
                assert(pieces@.map_values(|p: String| p@) =~= before.push(s@.subrange(old_start as int, i as int)));
                assert(split_char(s@.take(i + 1), sep) == split_char(s@.take(i as int), sep).push(Seq::<char>::empty()));
                assert(s@.subrange(start as int, i + 1) =~= Seq::<char>::empty());
                assert(split_char(s@.take(i as int), sep) == before.push(s@.subrange(old_start as int, i as int)));
                assert(pieces@.map_values(|p: String| p@).push(s@.subrange(start as int, i + 1)) =~= split_char(s@.take(i + 1), sep));
            }
        } else {
            proof {
                assert(s@.subrange(start as int, i + 1) =~= s@.subrange(start as int, i as int).push(c));
                assert(pieces@.map_values(|p: String| p@).push(s@.subrange(start as int, i + 1)) =~= split_char(s@.take(i + 1), sep));
            }
        }
        i = i + 1;
    }
    let last = s.substring_char(start, n);
    pieces.push(String::from_str(last));
    proof {
        assert(s@.take(n as int) =~= s@);
        assert(pieces@.map_values(|p: String| p@) =~= split_char(s@, sep));
    }
    pieces
}

/// The cookie header `cookie` as (name, value) pairs: the header cut at each
/// `;`, each part cut at `=`, and the first two pieces trimmed.
///
/// A header with a part that has no `=` (an empty header, or a trailing `;`)
/// is malformed: the answer is then `None`, deliberately, so that a request
/// with such a header is refused instead of bringing the server down.
pub fn parse_cookie(cookie: &str) -> (r: Option<Vec<(String, String)>>)
    ensures
        r is Some <==> forall|i: int| 0 <= i < split_char(cookie@, ';').len()
            ==> (#[trigger] split_char(split_char(cookie@, ';')[i], '=')).len() >= 2,
        r matches Some(v) ==> {
            &&& v@.len() == split_char(cookie@, ';').len()
            &&& forall|i: int| 0 <= i < v@.len() ==> {
                let parts = split_char(split_char(cookie@, ';')[i], '=');
                &&& (#[trigger] v@[i]).0@ == trimmed(parts[0])
                &&& v@[i].1@ == trimmed(parts[1])
            }
        },
{
    let segments = split_on(cookie, ';');
    let ghost segs = split_char(cookie@, ';');
    let mut out: Vec<(String, String)> = Vec::new();
    let mut i: usize = 0;
    while i < segments.len()
        invariant
            segments@.map_values(|p: String| p@) == segs,
            segs == split_char(cookie@, ';'),
            i <= segs.len(),
            out@.len() == i,
            forall|j: int| 0 <= j < i ==> (#[trigger] split_char(segs[j], '=')).len() >= 2,
            forall|j: int| 0 <= j < i ==> {
                let parts = split_char(segs[j], '=');
                &&& (#[trigger] out@[j]).0@ == trimmed(parts[0])
                &&& out@[j].1@ == trimmed(parts[1])
            },
        decreases segments.len() - i,
    {
        let parts = split_on(segments[i].as_str(), '=');
        proof {
            assert(segments@[i as int]@ == segs[i as int]);
        }
        if parts.len() < 2 {
            return None;
        }
        let name = trim_owned(parts[0].as_str());
        let value = trim_owned(parts[1].as_str());
        proof {
            assert(parts@.map_values(|p: String| p@)[0] == parts@[0]@);
            assert(parts@.map_values(|p: String| p@)[1] == parts@[1]@);
        }
        out.push((name, value));
        i = i + 1;
    }
    Some(out)
}

} // verus!
