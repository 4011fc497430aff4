//! Mapping request paths to files under a root directory.
use vstd::prelude::*;

use crate::error::{response_error, CbltError};
use crate::text::chars_of;

verus! {

/// Status sent when a file-serving directive has no root to serve from.
pub const INTERNAL_SERVER_ERROR: u16 = 500;

/// The stack of path segments after one more segment of a request path:
/// empty segments and `.` change nothing, `..` removes the last segment
/// (and fails where there is none), any other segment is appended.
pub open spec fn apply_segment(st: Option<Seq<Seq<char>>>, seg: Seq<char>) -> Option<
    Seq<Seq<char>>,
> {
    match st {
        None => None,
        Some(s) => if seg.len() == 0 || seg == seq!['.'] {
            Some(s)
        } else if seg == seq!['.', '.'] {
            if s.len() == 0 {
                None
            } else {
                Some(s.drop_last())
            }
        } else {
            Some(s.push(seg))
        },
    }
}

/// The segment stack after the complete segments of `p`, and the
/// incomplete segment at its end.
pub open spec fn scan_path(p: Seq<char>) -> (Option<Seq<Seq<char>>>, Seq<char>)
    decreases p.len(),
{
    if p.len() == 0 {
        (Some(seq![]), seq![])
    } else {
        let (st, cur) = scan_path(p.drop_last());
        if p.last() == '/' {
            (apply_segment(st, cur), seq![])
        } else {
            (st, cur.push(p.last()))
        }
    }
}

/// The segments that a request path resolves to, or `None` where it
/// climbs above its root.
pub open spec fn resolve_segments(p: Seq<char>) -> Option<Seq<Seq<char>>> {
    let (st, cur) = scan_path(p);
    apply_segment(st, cur)
}

/// `base` followed by each segment, each after a `/`.
pub open spec fn join_path(base: Seq<char>, segs: Seq<Seq<char>>) -> Seq<char>
    decreases segs.len(),
{
    if segs.len() == 0 {
        base
    } else {
        join_path(base, segs.drop_last()) + seq!['/'] + segs.last()
    }
}

/// The file path that a relative request path names under `base`, or
/// `None` where it is absolute (begins with `/`) or would leave `base`.
pub open spec fn sanitized(base: Seq<char>, requested: Seq<char>) -> Option<Seq<char>> {
    if requested.len() > 0 && requested[0] == '/' {
        None
    } else {
        match resolve_segments(requested) {
            Some(segs) => Some(join_path(base, segs)),
            None => None,
        }
    }
}

/// A segment that names an entry inside its directory: not empty, not `.`
/// or `..`, and without a `/`.
pub open spec fn is_plain_segment(seg: Seq<char>) -> bool {
    &&& seg.len() > 0
    &&& seg != seq!['.']
    &&& seg != seq!['.', '.']
    &&& forall|i: int| 0 <= i < seg.len() ==> seg[i] != '/'
}

/// Appends the characters `s[lo..hi]` to `out`.
fn append_range(out: &mut String, s: &str, lo: usize, hi: usize)
    requires
        lo <= hi <= s@.len(),
    ensures
        final(out)@ == old(out)@ + s@.subrange(lo as int, hi as int),
{
    let part = s.substring_char(lo, hi);
    out.append(part);
}

/// The segments that a stack of index ranges into `p` stands for.
pub open spec fn stack_segments(stack: Seq<(usize, usize)>, p: Seq<char>) -> Seq<Seq<char>> {
    stack.map_values(|r: (usize, usize)| p.subrange(r.0 as int, r.1 as int))
}

/// Whether every range of the stack lies within `p`.
pub open spec fn stack_in(stack: Seq<(usize, usize)>, p: Seq<char>) -> bool {
    forall|k: int| 0 <= k < stack.len() ==> (#[trigger] stack[k]).0 <= stack[k].1 <= p.len()
}

/// Applies the segment `p[lo..hi]` to the stack; false where it climbs
/// above the root.
fn close_segment(p: &Vec<char>, stack: &mut Vec<(usize, usize)>, lo: usize, hi: usize) -> (ok: bool)
    requires
        lo <= hi <= p.len(),
        stack_in(old(stack)@, p@),
    ensures
        stack_in(final(stack)@, p@),
        ({
            let st = apply_segment(
                Some(stack_segments(old(stack)@, p@)),
                p@.subrange(lo as int, hi as int),
            );
            &&& ok <==> st is Some
            &&& ok ==> st == Some(stack_segments(final(stack)@, p@))
        }),
{
    let ghost seg = p@.subrange(lo as int, hi as int);
    let ghost before = stack_segments(stack@, p@);
    let len = hi - lo;
    if len == 0 || (len == 1 && p[lo] == '.') {
        assert(len == 1 ==> seg =~= seq!['.']);
        true
    } else if len == 2 && p[lo] == '.' && p[lo + 1] == '.' {
        assert(seg =~= seq!['.', '.']);
        if stack.len() == 0 {
            false
        } else {
            stack.pop();
            assert(stack_segments(stack@, p@) =~= before.drop_last());
            true
        }
    } else {
        let ghost dot: Seq<char> = seq!['.'];
        let ghost dots: Seq<char> = seq!['.', '.'];
        assert(dot.len() == 1 && dot[0] == '.');
        assert(dots.len() == 2 && dots[0] == '.' && dots[1] == '.');
        assert(seg != dot) by {
            if len == 1 {
                assert(seg[0] != '.');
            }
        }
        assert(seg != dots) by {
            if len == 2 {
                assert(seg[0] != '.' || seg[1] != '.');
            }
        }
        stack.push((lo, hi));
        assert(stack_segments(stack@, p@) =~= before.push(seg));
        true
    }
}

/// Resolves the relative `requested_path` under `base_path`: segments are
/// separated by `/`; empty segments and `.` are skipped and `..` climbs one
/// segment. An absolute path, or one that would climb above `base_path`,
/// gives `None`.
pub fn sanitize_path(base_path: &str, requested_path: &str) -> (r: Option<String>)
    ensures
        match sanitized(base_path@, requested_path@) {
            Some(p) => r is Some && r->0@ == p,
            None => r is None,
        },
{
    let p = chars_of(requested_path);
    let ghost ps = requested_path@;
    if p.len() > 0 && p[0] == '/' {
        return None;
    }
    let mut stack: Vec<(usize, usize)> = Vec::new();
    let mut seg_start: usize = 0;
    let mut i: usize = 0;
    assert(ps.take(0) =~= seq![]);
    assert(stack_segments(stack@, ps) =~= seq![]);
    while i < p.len()
        invariant
            p@ == ps,
            ps == requested_path@,
            seg_start <= i <= p.len(),
            scan_path(ps.take(i as int)).1 == ps.subrange(seg_start as int, i as int),
            scan_path(ps.take(i as int)).0 == Some(stack_segments(stack@, ps)),
            stack_in(stack@, ps),
        decreases p.len() - i,
    {
        assert(ps.take(i + 1).drop_last() =~= ps.take(i as int));
        if p[i] == '/' {
            assert(ps.take(i + 1).last() == '/');
            if !close_segment(&p, &mut stack, seg_start, i) {
                assert(scan_path(ps.take(i + 1)).0 is None);
                proof {
                    lemma_failed_scan_stays(ps, i + 1);
                }
                return None;
            }
            seg_start = i + 1;
        } else {
            assert(ps.subrange(seg_start as int, i + 1) =~= ps.subrange(
                seg_start as int,
                i as int,
            ).push(ps[i as int]));
        }
        i = i + 1;
    }
    assert(ps.take(i as int) =~= ps);
    if !close_segment(&p, &mut stack, seg_start, i) {
        return None;
    }
    let ghost segs = stack_segments(stack@, ps);
    let mut out = base_path.to_string();
    let mut k: usize = 0;
    while k < stack.len()
        invariant
            k <= stack.len(),
            segs == stack_segments(stack@, ps),
            out@ == join_path(base_path@, segs.take(k as int)),
            stack_in(stack@, ps),
            ps == requested_path@,
        decreases stack.len() - k,
    {
        assert(segs.take(k + 1).drop_last() =~= segs.take(k as int));
        out.append("/");
        let (lo, hi) = stack[k];
        append_range(&mut out, requested_path, lo, hi);
        proof {
            reveal_strlit("/");
        }
        assert(out@ =~= join_path(base_path@, segs.take(k as int)) + seq!['/'] + segs[k as int]);
        k = k + 1;
    }
    assert(segs.take(k as int) =~= segs);
    Some(out)
}

/// Once the scan of a path prefix has climbed above the root, the whole
/// path resolves to nothing.
proof fn lemma_failed_scan_stays(p: Seq<char>, j: int)
    requires
        0 <= j <= p.len(),
        scan_path(p.take(j)).0 is None,
    ensures
        scan_path(p).0 is None,
        resolve_segments(p) is None,
    decreases p.len(),
{
    if j < p.len() {
        assert(p.drop_last().take(j) =~= p.take(j));
        lemma_failed_scan_stays(p.drop_last(), j);
    } else {
        assert(p.take(j) =~= p);
    }
}

/// Every segment of the stack names an entry inside its directory.
pub open spec fn all_plain(segs: Seq<Seq<char>>) -> bool {
    forall|k: int| 0 <= k < segs.len() ==> is_plain_segment(#[trigger] segs[k])
}

/// Applying a segment without `/` keeps every segment plain.
proof fn lemma_apply_keeps_plain(st: Option<Seq<Seq<char>>>, seg: Seq<char>)
    requires
        st matches Some(s) ==> all_plain(s),
        forall|i: int| 0 <= i < seg.len() ==> seg[i] != '/',
    ensures
        apply_segment(st, seg) matches Some(s) ==> all_plain(s),
{
    if let Some(s) = st {
        if seg.len() == 0 || seg == seq!['.'] {
        } else if seg == seq!['.', '.'] {
        } else {
            assert forall|k: int| 0 <= k < s.push(seg).len() implies is_plain_segment(
                #[trigger] s.push(seg)[k],
            ) by {
                if k < s.len() {
                    assert(s.push(seg)[k] == s[k]);
                }
            }
        }
    }
}

/// Scanning keeps every complete segment plain and the open segment free
/// of `/`.
proof fn lemma_scan_plain(p: Seq<char>)
    ensures
        scan_path(p).0 matches Some(s) ==> all_plain(s),
        forall|i: int| 0 <= i < scan_path(p).1.len() ==> scan_path(p).1[i] != '/',
    decreases p.len(),
{
    if p.len() > 0 {
        lemma_scan_plain(p.drop_last());
        let (st, cur) = scan_path(p.drop_last());
        if p.last() == '/' {
            lemma_apply_keeps_plain(st, cur);
        } else {
            assert forall|i: int| 0 <= i < cur.push(p.last()).len() implies cur.push(
                p.last(),
            )[i] != '/' by {
                if i < cur.len() {
                    assert(cur.push(p.last())[i] == cur[i]);
                }
            }
        }
    }
}

/// A joined path begins with its base.
proof fn lemma_join_starts_with_base(base: Seq<char>, segs: Seq<Seq<char>>)
    ensures
        join_path(base, segs).len() >= base.len(),
        join_path(base, segs).take(base.len() as int) == base,
    decreases segs.len(),
{
    if segs.len() > 0 {
        lemma_join_starts_with_base(base, segs.drop_last());
        let prev = join_path(base, segs.drop_last());
        assert((prev + seq!['/'] + segs.last()).take(base.len() as int) =~= prev.take(
            base.len() as int,
        ));
    }
}

/// A resolved request path stays inside its root: an absolute path is
/// refused, and any other resolves to the root followed by segments that
/// each name an entry inside their directory, so no `..`, `.` or empty
/// segment survives, and the root is a prefix of the result.
pub proof fn lemma_sanitized_inside_root(base: Seq<char>, requested: Seq<char>)
    ensures
        requested.len() > 0 && requested[0] == '/' ==> sanitized(base, requested) is None,
        sanitized(base, requested) matches Some(p) ==> {
            &&& p.take(base.len() as int) == base
            &&& resolve_segments(requested) matches Some(segs) && all_plain(segs) && p
                == join_path(base, segs)
        },
{
    lemma_scan_plain(requested);
    let (st, cur) = scan_path(requested);
    lemma_apply_keeps_plain(st, cur);
    if let Some(segs) = resolve_segments(requested) {
        lemma_join_starts_with_base(base, segs);
    }
}

/// `dir` and `name` joined by a `/`, unless `dir` already ends in one.
pub open spec fn child_of(dir: Seq<char>, name: Seq<char>) -> Seq<char> {
    if dir.len() > 0 && dir.last() == '/' {
        dir + name
    } else {
        dir + seq!['/'] + name
    }
}

/// The path of the entry `name` inside the directory `dir`.
pub fn child_path(dir: &str, name: &str) -> (r: String)
    ensures
        r@ == child_of(dir@, name@),
{
    let d = chars_of(dir);
    let mut out = dir.to_string();
    if !(d.len() > 0 && d[d.len() - 1] == '/') {
        out.append("/");
        proof {
            reveal_strlit("/");
        }
    }
    out.append(name);
    out
}

/// `s` without its leading `/` characters.
pub open spec fn trim_leading_slashes(s: Seq<char>) -> Seq<char>
    decreases s.len(),
{
    if s.len() > 0 && s[0] == '/' {
        trim_leading_slashes(s.drop_first())
    } else {
        s
    }
}

/// `s` without its leading `/` characters.
pub fn strip_leading_slashes(s: &str) -> (r: &str)
    ensures
        r@ == trim_leading_slashes(s@),
{
    let f = chars_of(s);
    let mut i: usize = 0;
    assert(f@.subrange(0, f.len() as int) =~= f@);
    while i < f.len() && f[i] == '/'
        invariant
            i <= f.len(),
            f@ == s@,
            trim_leading_slashes(f@.subrange(i as int, f.len() as int)) == trim_leading_slashes(
                s@,
            ),
        decreases f.len() - i,
    {
        assert(f@.subrange(i + 1, f.len() as int) =~= f@.subrange(i as int, f.len() as int).drop_first());
        i = i + 1;
    }
    s.substring_char(i, f.len())
}

/// The path of a host's fallback file: `fallback`, without leading `/`,
/// inside `root`.
pub fn fallback_path(root: &str, fallback: &str) -> (r: String)
    ensures
        r@ == child_of(root@, trim_leading_slashes(fallback@)),
{
    child_path(root, strip_leading_slashes(fallback))
}

/// Where a file-serving directive looks for the requested file: the
/// request path, without its leading `/`, resolved under the current root.
/// Without a root the directive fails with `500`; a path that leaves the
/// root does not match.
pub fn file_target(root_path: Option<&str>, request_path: &str) -> (r: Result<String, CbltError>)
    ensures
        match root_path {
            None => r is Err && r->Err_0.is_response(INTERNAL_SERVER_ERROR),
            Some(root) => match sanitized(root@, trim_leading_slashes(request_path@)) {
                Some(p) => r is Ok && r->Ok_0@ == p,
                None => r is Err && r->Err_0 is DirectiveNotMatched,
            },
        },
{
    match root_path {
        None => Err(response_error("No root for file server", INTERNAL_SERVER_ERROR)),
        Some(root) => match sanitize_path(root, strip_leading_slashes(request_path)) {
            Some(p) => Ok(p),
            None => Err(CbltError::DirectiveNotMatched),
        },
    }
}

} // verus!
