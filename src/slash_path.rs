//! '/'-separated paths read component by component: a run of separators
//! counts as one, and `.` components name nothing.
use vstd::prelude::*;
use vstd::string::StrSliceExecFns;

verus! {

/// The path starts at the root.
pub open spec fn is_absolute(p: Seq<char>) -> bool {
    p.len() > 0 && p[0] == '/'
}

/// A segment between separators is a component unless it is empty (from a
/// run of separators, or a leading or trailing one) or `.`.
pub open spec fn names_component(c: Seq<char>) -> bool {
    c.len() > 0 && !(c.len() == 1 && c[0] == '.')
}

/// A well-formed component: it names something and holds no separator.
pub open spec fn is_component(c: Seq<char>) -> bool {
    &&& names_component(c)
    &&& forall|k: int| 0 <= k < c.len() ==> c[k] != '/'
}

/// The components of `p` read from position `i` on, where the current
/// segment began at `start` and `acc` holds those found before it.
pub open spec fn scan(p: Seq<char>, i: int, start: int, acc: Seq<Seq<char>>) -> Seq<Seq<char>>
    decreases p.len() - i,
{
    if i >= p.len() {
        let c = p.subrange(start, p.len() as int);
        if names_component(c) {
            acc.push(c)
        } else {
            acc
        }
    } else if p[i] == '/' {
        let c = p.subrange(start, i);
        scan(p, i + 1, i + 1, if names_component(c) { acc.push(c) } else { acc })
    } else {
        scan(p, i + 1, start, acc)
    }
}

/// The components of `p`, in order.
pub open spec fn components(p: Seq<char>) -> Seq<Seq<char>> {
    scan(p, 0, 0, Seq::empty())
}

/// The relative path made of the components `cs`, one separator apart.
pub open spec fn join(cs: Seq<Seq<char>>) -> Seq<char>
    decreases cs.len(),
{
    if cs.len() == 0 {
        Seq::empty()
    } else if cs.len() == 1 {
        cs[0]
    } else {
        join(cs.drop_last()) + seq!['/'] + cs.last()
    }
}

/// The text that each range of `rs` marks in `p`.
pub open spec fn ranges_view(p: Seq<char>, rs: Seq<(usize, usize)>) -> Seq<Seq<char>> {
    rs.map_values(|r: (usize, usize)| p.subrange(r.0 as int, r.1 as int))
}

/// Every component that a scan yields is well formed.
pub proof fn lemma_scan_components(p: Seq<char>, i: int, start: int, acc: Seq<Seq<char>>)
    requires
        0 <= start <= i <= p.len(),
        forall|k: int| start <= k < i ==> p[k] != '/',
        forall|k: int| 0 <= k < acc.len() ==> is_component(#[trigger] acc[k]),
    ensures
        forall|k: int|
            0 <= k < scan(p, i, start, acc).len() ==> is_component(#[trigger] scan(p, i, start, acc)[k]),
    decreases p.len() - i,
{
    if i >= p.len() {
        let c = p.subrange(start, p.len() as int);
        assert(forall|k: int| 0 <= k < c.len() ==> c[k] == p[start + k]);
        if names_component(c) {
            let acc2 = acc.push(c);
            assert(scan(p, i, start, acc) == acc2);
            assert(is_component(c));
            assert forall|k: int| 0 <= k < acc2.len() implies is_component(#[trigger] acc2[k]) by {
                if k < acc.len() {
                    assert(acc2[k] == acc[k]);
                }
            }
        }
    } else if p[i] == '/' {
        let c = p.subrange(start, i);
        assert(forall|k: int| 0 <= k < c.len() ==> c[k] == p[start + k]);
        let acc2 = if names_component(c) {
            acc.push(c)
        } else {
            acc
        };
        assert forall|k: int| 0 <= k < acc2.len() implies is_component(#[trigger] acc2[k]) by {
            if k < acc.len() {
                assert(acc2[k] == acc[k]);
            }
        }
        lemma_scan_components(p, i + 1, i + 1, acc2);
        assert(scan(p, i, start, acc) == scan(p, i + 1, i + 1, acc2));
    } else {
        lemma_scan_components(p, i + 1, start, acc);
        assert(scan(p, i, start, acc) == scan(p, i + 1, start, acc));
    }
}

/// A scan over a last segment free of separators ends with that segment.
proof fn lemma_scan_last_segment(p: Seq<char>, j: int, start: int, acc: Seq<Seq<char>>)
    requires
        0 <= start <= j <= p.len(),
        forall|k: int| start <= k < p.len() ==> p[k] != '/',
    ensures
        scan(p, j, start, acc) == if names_component(p.subrange(start, p.len() as int)) {
            acc.push(p.subrange(start, p.len() as int))
        } else {
            acc
        },
    decreases p.len() - j,
{
    if j < p.len() {
        lemma_scan_last_segment(p, j + 1, start, acc);
    }
}

/// Appending a separator and one more component appends that component.
proof fn lemma_scan_append(q: Seq<char>, c: Seq<char>, i: int, start: int, acc: Seq<Seq<char>>)
    requires
        0 <= start <= i <= q.len(),
        is_component(c),
    ensures
        scan(q + seq!['/'] + c, i, start, acc) == scan(q, i, start, acc).push(c),
    decreases q.len() - i,
{
    let p = q + seq!['/'] + c;
    if i == q.len() {
        assert(p[i] == '/');
        assert(p.subrange(start, i) =~= q.subrange(start, i));
        let seg = p.subrange(start, i);
        let acc2 = if names_component(seg) {
            acc.push(seg)
        } else {
            acc
        };
        assert forall|k: int| i + 1 <= k < p.len() implies p[k] != '/' by {
            assert(p[k] == c[k - i - 1]);
        }
        lemma_scan_last_segment(p, i + 1, i + 1, acc2);
        assert(p.subrange(i + 1, p.len() as int) =~= c);
    } else {
        assert(p[i] == q[i]);
        if q[i] == '/' {
            assert(p.subrange(start, i) =~= q.subrange(start, i));
            let seg = q.subrange(start, i);
            let acc2 = if names_component(seg) {
                acc.push(seg)
            } else {
                acc
            };
            lemma_scan_append(q, c, i + 1, i + 1, acc2);
        } else {
            lemma_scan_append(q, c, i + 1, start, acc);
        }
    }
}

/// Joining well-formed components and reading the result back gives the
/// same components.
pub proof fn lemma_components_of_join(cs: Seq<Seq<char>>)
    requires
        forall|k: int| 0 <= k < cs.len() ==> is_component(#[trigger] cs[k]),
    ensures
        components(join(cs)) == cs,
    decreases cs.len(),
{
    if cs.len() == 0 {
        assert(components(join(cs)) =~= cs);
    } else if cs.len() == 1 {
        assert(is_component(cs[0]));
        lemma_scan_last_segment(cs[0], 0, 0, Seq::empty());
        assert(cs[0].subrange(0, cs[0].len() as int) =~= cs[0]);
        assert(Seq::<Seq<char>>::empty().push(cs[0]) =~= cs);
    } else {
        let dl = cs.drop_last();
        assert forall|k: int| 0 <= k < dl.len() implies is_component(#[trigger] dl[k]) by {
            assert(dl[k] == cs[k]);
        }
        lemma_components_of_join(dl);
        assert(is_component(cs[cs.len() - 1]));
        lemma_scan_append(join(dl), cs.last(), 0, 0, Seq::empty());
        assert(dl.push(cs.last()) =~= cs);
    }
}

/// A join of well-formed components is empty only without components, and
/// otherwise starts with its first component's first character.
pub proof fn lemma_join_start(cs: Seq<Seq<char>>)
    requires
        forall|k: int| 0 <= k < cs.len() ==> is_component(#[trigger] cs[k]),
    ensures
        cs.len() > 0 ==> join(cs).len() > 0 && join(cs)[0] == cs[0][0],
        cs.len() > 0 ==> join(cs)[0] != '/',
    decreases cs.len(),
{
    if cs.len() > 0 {
        assert(is_component(cs[0]));
    }
    if cs.len() >= 2 {
        let dl = cs.drop_last();
        assert forall|k: int| 0 <= k < dl.len() implies is_component(#[trigger] dl[k]) by {
            assert(dl[k] == cs[k]);
        }
        lemma_join_start(dl);
        assert(dl[0] == cs[0]);
    }
}

/// Whether the segment `start..end` of `p` names a component.
fn segment_names(p: &str, start: usize, end: usize) -> (r: bool)
    requires
        start <= end <= p@.len(),
    ensures
        r == names_component(p@.subrange(start as int, end as int)),
{
    if end == start {
        return false;
    }
    !(end == start + 1 && p.get_char(start) == '.')
}

/// The position of each component of `p`, as a range of characters.
pub fn component_ranges(p: &str) -> (r: Vec<(usize, usize)>)
    ensures
        ranges_view(p@, r@) == components(p@),
        forall|k: int| 0 <= k < r@.len() ==> #[trigger] r@[k].0 <= r@[k].1 <= p@.len(),
{
    let n = p.unicode_len();
    let mut acc: Vec<(usize, usize)> = Vec::new();
    let mut start: usize = 0;
    let mut i: usize = 0;
    assert(ranges_view(p@, acc@) =~= Seq::<Seq<char>>::empty());
    while i < n
        invariant
            n == p@.len(),
            start <= i <= n,
            scan(p@, i as int, start as int, ranges_view(p@, acc@)) == components(p@),
            forall|k: int| 0 <= k < acc@.len() ==> #[trigger] acc@[k].0 <= acc@[k].1 <= p@.len(),
        decreases n - i,
    {
        if p.get_char(i) == '/' {
            if segment_names(p, start, i) {
                let ghost before = acc@;
                acc.push((start, i));
                assert(ranges_view(p@, acc@) =~= ranges_view(p@, before).push(
                    p@.subrange(start as int, i as int),
                ));
            }
            start = i + 1;
        }
        i = i + 1;
    }
    if segment_names(p, start, n) {
        let ghost before = acc@;
        acc.push((start, n));
        assert(ranges_view(p@, acc@) =~= ranges_view(p@, before).push(
            p@.subrange(start as int, n as int),
        ));
    }
    acc
}

} // verus!
