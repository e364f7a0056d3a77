//! Paths compared as `std::path::Path` compares them: by their components,
//! so that `a//b`, `a/./b` and `a/b/` all name `a/b`.
use vstd::prelude::*;

use crate::text::{chars_of, string_of};

verus! {

/// A component as `Path::components` keeps it: empty parts and `.` parts
/// after the first are dropped.
pub open spec fn kept(c: Seq<char>) -> Seq<Seq<char>> {
    if c.len() == 0 || c == seq!['.'] {
        seq![]
    } else {
        seq![c]
    }
}

/// The kept components of `s` from offset `i` on, where `cur` is what has
/// been read of the current one.
pub open spec fn parts_from(s: Seq<char>, i: int, cur: Seq<char>) -> Seq<Seq<char>>
    decreases s.len() - i,
{
    if i < 0 || i >= s.len() {
        kept(cur)
    } else if s[i] == '/' {
        kept(cur) + parts_from(s, i + 1, seq![])
    } else {
        parts_from(s, i + 1, cur.push(s[i]))
    }
}

/// Components joined by `/`.
pub open spec fn join_parts(ps: Seq<Seq<char>>) -> Seq<char>
    decreases ps.len(),
{
    if ps.len() == 0 {
        seq![]
    } else if ps.len() == 1 {
        ps[0]
    } else {
        join_parts(ps.drop_last()) + seq!['/'] + ps.last()
    }
}

/// Whether a path begins with the component `.` (`.` alone or `./`), which
/// `Path::components` keeps.
pub open spec fn starts_at_cur_dir(s: Seq<char>) -> bool {
    s.len() > 0 && s[0] == '.' && (s.len() == 1 || s[1] == '/')
}

/// The components of a path written out again: a root `/`, a leading `.`,
/// then the other components joined by `/`. Two paths are equal as `Path`s
/// exactly when their keys are equal.
pub open spec fn path_key(s: Seq<char>) -> Seq<char> {
    let body = join_parts(parts_from(s, 0, seq![]));
    if s.len() > 0 && s[0] == '/' {
        seq!['/'] + body
    } else if starts_at_cur_dir(s) {
        if body.len() == 0 {
            seq!['.']
        } else {
            seq!['.', '/'] + body
        }
    } else {
        body
    }
}

/// Appends the component `cur`, where it is kept, to the components joined
/// in `out`; `count` of them are there.
fn push_part(out: &mut Vec<char>, cur: &Vec<char>, count: usize, Ghost(done): Ghost<Seq<Seq<char>>>) -> (r: usize)
    requires
        old(out)@ == join_parts(done),
        count == done.len(),
        count < usize::MAX,
    ensures
        final(out)@ == join_parts(done + kept(cur@)),
        r == (done + kept(cur@)).len(),
{
    let dot = cur.len() == 1 && cur[0] == '.';
    if cur.len() == 0 || dot {
        proof {
            if cur@.len() > 0 {
                assert(cur@ =~= seq!['.']);
            }
        }
        assert(done + kept(cur@) =~= done);
        return count;
    }
    assert(cur@ != seq!['.']) by {
        if cur@.len() == 1 {
            assert(cur@[0] != '.');
        }
    }
    let ghost next = done + kept(cur@);
    assert(next =~= done.push(cur@));
    assert(next.drop_last() =~= done);
    if count > 0 {
        out.push('/');
    }
    let mut k: usize = 0;
    let ghost base = out@;
    while k < cur.len()
        invariant
            k <= cur@.len(),
            out@ == base + cur@.take(k as int),
        decreases cur.len() - k,
    {
        out.push(cur[k]);
        assert(cur@.take(k + 1) =~= cur@.take(k as int).push(cur@[k as int]));
        k = k + 1;
    }
    assert(cur@.take(cur@.len() as int) =~= cur@);
    proof {
        if done.len() == 0 {
            assert(out@ =~= cur@);
        }
    }
    count + 1
}

/// The key of a path, by which paths are compared.
pub fn path_key_of(path: &str) -> (r: String)
    ensures
        r@ == path_key(path@),
{
    let s = chars_of(path);
    let n = s.len();
    let mut out: Vec<char> = Vec::new();
    let mut cur: Vec<char> = Vec::new();
    let mut count: usize = 0;
    let ghost mut done: Seq<Seq<char>> = seq![];
    let mut i: usize = 0;
    while i < n
        invariant
            n == s@.len(),
            s@ == path@,
            i <= n,
            count == done.len(),
            cur@.len() + 2 * count <= i,
            out@ == join_parts(done),
            parts_from(s@, 0, seq![]) == done + parts_from(s@, i as int, cur@),
        decreases n - i,
    {
        if s[i] == '/' {
            count = push_part(&mut out, &cur, count, Ghost(done));
            proof {
                assert(parts_from(s@, i as int, cur@) == kept(cur@) + parts_from(s@, i + 1, seq![]));
                assert(done + (kept(cur@) + parts_from(s@, i + 1, seq![])) =~= (done + kept(cur@)) + parts_from(s@, i + 1, seq![]));
                done = done + kept(cur@);
            }
            cur = Vec::new();
            assert(cur@ =~= Seq::<char>::empty());
        } else {
            assert(parts_from(s@, i as int, cur@) == parts_from(s@, i + 1, cur@.push(s@[i as int])));
            cur.push(s[i]);
        }
        i = i + 1;
    }
    assert(count < usize::MAX);
    let _ = push_part(&mut out, &cur, count, Ghost(done));
    proof {
        done = done + kept(cur@);
    }
    let root = n > 0 && s[0] == '/';
    let cur_dir = n > 0 && s[0] == '.' && (n == 1 || s[1] == '/');
    if root {
        let mut r: Vec<char> = Vec::new();
        r.push('/');
        r.append(&mut out);
        string_of(&r)
    } else if cur_dir {
        let mut r: Vec<char> = Vec::new();
        r.push('.');
        if out.len() > 0 {
            r.push('/');
            r.append(&mut out);
            assert(r@ =~= seq!['.', '/'] + join_parts(done));
        }
        string_of(&r)
    } else {
        string_of(&out)
    }
}

} // verus!
