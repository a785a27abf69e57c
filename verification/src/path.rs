//! Path normalization for request filenames.
//!
//! A client-supplied path is a raw byte string whose components are
//! separated by `/`.  Normalization collapses `..` components and strips
//! leading separators so that the result is always a relative path that
//! can be joined onto the served root directory.  A path whose `..`
//! components cannot all be collapsed escapes the root and is rejected.

use crate::bytes::clone_bytes;
use vstd::prelude::*;

verus! {

/// The path component separator, ASCII `/`.
pub const SEPARATOR: u8 = 47;

/// ASCII `.`; a component of one dot refers to the current directory.
pub const DOT: u8 = 46;

/// The component `.`.
pub open spec fn dot_component() -> Seq<u8> {
    seq![DOT]
}

/// The component `..`.
pub open spec fn dotdot_component() -> Seq<u8> {
    seq![DOT, DOT]
}

/// Splitting state after scanning a prefix of the path: the components
/// already terminated by a separator, and the partial component that the
/// scan is currently inside.
pub open spec fn split_state(s: Seq<u8>) -> (Seq<Seq<u8>>, Seq<u8>)
    decreases s.len(),
{
    if s.len() == 0 {
        (seq![], seq![])
    } else {
        let (done, cur) = split_state(s.drop_last());
        if s.last() == SEPARATOR {
            (done.push(cur), seq![])
        } else {
            (done, cur.push(s.last()))
        }
    }
}

/// The components of a path: the byte runs between separators, including
/// any empty runs produced by leading, doubled or trailing separators.
pub open spec fn raw_components(s: Seq<u8>) -> Seq<Seq<u8>> {
    split_state(s).0.push(split_state(s).1)
}

/// Drops the components that do not move the walk: empty components
/// (from leading, doubled or trailing separators) and `.` components.
pub open spec fn clean_components(cs: Seq<Seq<u8>>) -> Seq<Seq<u8>>
    decreases cs.len(),
{
    if cs.len() == 0 {
        seq![]
    } else {
        let pre = clean_components(cs.drop_last());
        let c = cs.last();
        if c.len() == 0 || c == dot_component() {
            pre
        } else {
            pre.push(c)
        }
    }
}

/// Folds the components of a path into an accumulator: a `..` pops the
/// accumulator when it is non-empty and accumulates literally otherwise;
/// every other component is appended.
pub open spec fn collapse(cs: Seq<Seq<u8>>) -> Seq<Seq<u8>>
    decreases cs.len(),
{
    if cs.len() == 0 {
        seq![]
    } else {
        let pre = collapse(cs.drop_last());
        let c = cs.last();
        if c == dotdot_component() {
            if pre.len() > 0 {
                pre.drop_last()
            } else {
                pre.push(c)
            }
        } else {
            pre.push(c)
        }
    }
}

/// Joins components back into a byte path with a single separator
/// between adjacent components.
pub open spec fn join_components(cs: Seq<Seq<u8>>) -> Seq<u8>
    decreases cs.len(),
{
    if cs.len() == 0 {
        seq![]
    } else if cs.len() == 1 {
        cs[0]
    } else {
        join_components(cs.drop_last()) + seq![SEPARATOR] + cs.last()
    }
}

/// The collapsed component list of a path.
pub open spec fn normal_components(s: Seq<u8>) -> Seq<Seq<u8>> {
    collapse(clean_components(raw_components(s)))
}

/// What `normalize` computes: collapse the cleaned components and reject
/// the path when a `..` survives at the front, since such a path would
/// escape the root it is joined onto.
pub open spec fn spec_normalize(s: Seq<u8>) -> Option<Seq<u8>> {
    let cs = normal_components(s);
    if cs.len() > 0 && cs[0] == dotdot_component() {
        None
    } else {
        Some(join_components(cs))
    }
}

/// True when a byte path is the component `..` or starts with `../`.
pub open spec fn starts_with_dotdot(q: Seq<u8>) -> bool {
    q == dotdot_component() || (q.len() > 2 && q.subrange(0, 2) == dotdot_component() && q[2]
        == SEPARATOR)
}

/// The views of a sequence of byte vectors.
pub open spec fn views(v: Seq<Vec<u8>>) -> Seq<Seq<u8>>
    decreases v.len(),
{
    if v.len() == 0 {
        seq![]
    } else {
        views(v.drop_last()).push(v.last()@)
    }
}

proof fn lemma_views_index(v: Seq<Vec<u8>>)
    ensures
        views(v).len() == v.len(),
        forall|i: int| 0 <= i < v.len() ==> views(v)[i] == v[i]@,
    decreases v.len(),
{
    if v.len() > 0 {
        lemma_views_index(v.drop_last());
        assert forall|i: int| 0 <= i < v.len() implies views(v)[i] == v[i]@ by {
            if i < v.len() - 1 {
                assert(v.drop_last()[i] == v[i]);
            }
        }
    }
}

/// In a collapsed component list, `..` can only stand at the front: a
/// `..` is only ever appended to an empty accumulator, and popping
/// preserves that shape.
proof fn lemma_collapse_dotdot_front(cs: Seq<Seq<u8>>)
    ensures
        forall|i: int|
            0 < i < collapse(cs).len() ==> #[trigger] collapse(cs)[i] != dotdot_component(),
    decreases cs.len(),
{
    if cs.len() > 0 {
        lemma_collapse_dotdot_front(cs.drop_last());
        let pre = collapse(cs.drop_last());
        assert forall|i: int|
            0 < i < collapse(cs).len() implies #[trigger] collapse(cs)[i] != dotdot_component() by {
            if cs.last() == dotdot_component() && pre.len() > 0 {
                assert(collapse(cs)[i] == pre[i]);
            } else if i < pre.len() {
                assert(collapse(cs)[i] == pre[i]);
            } else {
                assert(collapse(cs)[i] == cs.last());
            }
        }
    }
}

/// Every collapsed component is either `..` or one of the input
/// components.
proof fn lemma_collapse_members(cs: Seq<Seq<u8>>)
    ensures
        forall|i: int|
            0 <= i < collapse(cs).len() ==> #[trigger] collapse(cs)[i] == dotdot_component() || (
            exists|j: int| 0 <= j < cs.len() && collapse(cs)[i] == #[trigger] cs[j]),
    decreases cs.len(),
{
    if cs.len() > 0 {
        lemma_collapse_members(cs.drop_last());
        assert forall|i: int| 0 <= i < collapse(cs).len() implies #[trigger] collapse(cs)[i]
            == dotdot_component() || (exists|j: int|
            0 <= j < cs.len() && collapse(cs)[i] == #[trigger] cs[j]) by {
            let pre = collapse(cs.drop_last());
            if i < pre.len() && collapse(cs)[i] == pre[i] && pre[i] != dotdot_component() {
                let j = choose|j: int|
                    0 <= j < cs.drop_last().len() && pre[i] == #[trigger] cs.drop_last()[j];
                assert(cs.drop_last()[j] == cs[j]);
                assert(collapse(cs)[i] == cs[j]);
            } else if collapse(cs)[i] == cs.last() {
                assert(collapse(cs)[i] == cs[cs.len() - 1]);
            }
        }
    }
}

/// Cleaned components are non-empty and never the component `.`.
proof fn lemma_clean_shape(cs: Seq<Seq<u8>>)
    ensures
        forall|i: int|
            0 <= i < clean_components(cs).len() ==> #[trigger] clean_components(cs)[i].len() > 0
                && clean_components(cs)[i] != dot_component(),
    decreases cs.len(),
{
    if cs.len() > 0 {
        lemma_clean_shape(cs.drop_last());
        let pre = clean_components(cs.drop_last());
        assert forall|i: int|
            0 <= i < clean_components(cs).len() implies #[trigger] clean_components(cs)[i].len()
            > 0 && clean_components(cs)[i] != dot_component() by {
            if i < pre.len() {
                assert(clean_components(cs)[i] == pre[i]);
            } else {
                assert(clean_components(cs)[i] == cs.last());
            }
        }
    }
}

/// Every cleaned component is one of the raw components.
proof fn lemma_clean_subset(cs: Seq<Seq<u8>>)
    ensures
        forall|i: int|
            0 <= i < clean_components(cs).len() ==> exists|j: int|
                0 <= j < cs.len() && #[trigger] clean_components(cs)[i] == #[trigger] cs[j],
    decreases cs.len(),
{
    if cs.len() > 0 {
        lemma_clean_subset(cs.drop_last());
        assert forall|i: int| 0 <= i < clean_components(cs).len() implies exists|j: int|
            0 <= j < cs.len() && #[trigger] clean_components(cs)[i] == #[trigger] cs[j] by {
            let pre = clean_components(cs.drop_last());
            if i < pre.len() && clean_components(cs)[i] == pre[i] {
                let j = choose|j: int|
                    0 <= j < cs.drop_last().len() && pre[i] == #[trigger] cs.drop_last()[j];
                assert(cs.drop_last()[j] == cs[j]);
                assert(clean_components(cs)[i] == cs[j]);
            } else {
                assert(clean_components(cs)[i] == cs[cs.len() - 1]);
            }
        }
    }
}

/// No component of a split contains a separator byte.
proof fn lemma_split_no_separator(s: Seq<u8>)
    ensures
        forall|i: int, j: int|
            0 <= i < raw_components(s).len() && 0 <= j < raw_components(s)[i].len()
                ==> #[trigger] raw_components(s)[i][j] != SEPARATOR,
    decreases s.len(),
{
    if s.len() > 0 {
        lemma_split_no_separator(s.drop_last());
        let (done, cur) = split_state(s.drop_last());
        assert forall|i: int, j: int|
            0 <= i < raw_components(s).len() && 0 <= j < raw_components(s)[i].len()
                implies #[trigger] raw_components(s)[i][j] != SEPARATOR by {
            if s.last() == SEPARATOR {
                if i < done.len() {
                    assert(raw_components(s)[i] == raw_components(s.drop_last())[i]);
                } else if i == done.len() {
                    assert(raw_components(s)[i] == cur);
                    assert(raw_components(s.drop_last())[i] == cur);
                }
            } else {
                if i < done.len() {
                    assert(raw_components(s)[i] == raw_components(s.drop_last())[i]);
                } else {
                    assert(raw_components(s)[i] == cur.push(s.last()));
                    assert(raw_components(s.drop_last())[i] == cur);
                    if j < cur.len() {
                        assert(raw_components(s)[i][j] == cur[j]);
                        assert(raw_components(s.drop_last())[i][j] == cur[j]);
                    }
                }
            }
        }
    }
}

/// When the first component is non-empty and separator-free, the join
/// starts with exactly that component, followed by a separator when more
/// components follow.
proof fn lemma_join_prefix_component(cs: Seq<Seq<u8>>)
    requires
        cs.len() > 0,
        forall|i: int| 0 <= i < cs.len() ==> #[trigger] cs[i].len() > 0,
        forall|i: int, j: int|
            0 <= i < cs.len() && 0 <= j < cs[i].len() ==> #[trigger] cs[i][j] != SEPARATOR,
    ensures
        ({
            let q = join_components(cs);
            let c = cs[0];
            q.len() >= c.len() && q.subrange(0, c.len() as int) == c && (q.len() == c.len() || q[
                c.len() as int
            ] == SEPARATOR)
        }),
    decreases cs.len(),
{
    if cs.len() > 1 {
        assert(cs.drop_last()[0] == cs[0]);
        assert(forall|i: int| 0 <= i < cs.drop_last().len() ==> #[trigger] cs.drop_last()[i].len() > 0);
        assert(forall|i: int, j: int|
            0 <= i < cs.drop_last().len() && 0 <= j < cs.drop_last()[i].len()
                ==> #[trigger] cs.drop_last()[i][j] != SEPARATOR);
        lemma_join_prefix_component(cs.drop_last());
        let q = join_components(cs);
        let p = join_components(cs.drop_last());
        let c = cs[0];
        assert(q == p + seq![SEPARATOR] + cs.last());
        assert(q.subrange(0, c.len() as int) =~= p.subrange(0, c.len() as int));
        if q.len() > c.len() && p.len() == c.len() {
            assert(q[c.len() as int] == SEPARATOR);
        }
    } else {
        assert(join_components(cs) == cs[0]);
        assert(join_components(cs).subrange(0, cs[0].len() as int) =~= cs[0]);
    }
}

/// If no cleaned component is `..`, collapsing never produces one.
proof fn lemma_collapse_no_dotdot(cs: Seq<Seq<u8>>)
    requires
        forall|i: int| 0 <= i < cs.len() ==> #[trigger] cs[i] != dotdot_component(),
    ensures
        forall|i: int|
            0 <= i < collapse(cs).len() ==> #[trigger] collapse(cs)[i] != dotdot_component(),
    decreases cs.len(),
{
    if cs.len() > 0 {
        assert(forall|i: int|
            0 <= i < cs.drop_last().len() ==> #[trigger] cs.drop_last()[i] != dotdot_component());
        lemma_collapse_no_dotdot(cs.drop_last());
        let pre = collapse(cs.drop_last());
        assert forall|i: int|
            0 <= i < collapse(cs).len() implies #[trigger] collapse(cs)[i] != dotdot_component() by {
            if i < pre.len() {
                assert(collapse(cs)[i] == pre[i]);
            } else {
                assert(collapse(cs)[i] == cs.last());
                assert(cs.last() == cs[cs.len() - 1]);
            }
        }
    }
}

/// Path containment: a normalized path never begins with a separator
/// (it is relative) and never begins with a `..` component (it stays
/// inside the directory it is joined onto); and a path none of whose
/// cleaned components is `..` is always accepted.
pub proof fn lemma_path_containment(s: Seq<u8>)
    ensures
        spec_normalize(s) matches Some(q) ==> (q.len() == 0 || q[0] != SEPARATOR),
        spec_normalize(s) matches Some(q) ==> !starts_with_dotdot(q),
        (forall|i: int|
            0 <= i < clean_components(raw_components(s)).len()
                ==> #[trigger] clean_components(raw_components(s))[i] != dotdot_component())
            ==> spec_normalize(s) is Some,
{
    let raw = raw_components(s);
    let cleaned = clean_components(raw);
    let cs = collapse(cleaned);
    lemma_clean_shape(raw);
    lemma_clean_subset(raw);
    lemma_split_no_separator(s);
    lemma_collapse_members(cleaned);
    lemma_collapse_dotdot_front(cleaned);
    // Each collapsed component is non-empty and separator-free.
    assert forall|i: int| 0 <= i < cs.len() implies #[trigger] cs[i].len() > 0 && (forall|j: int|
        0 <= j < cs[i].len() ==> #[trigger] cs[i][j] != SEPARATOR) by {
        if cs[i] == dotdot_component() {
            assert(cs[i].len() == 2 && cs[i][0] == DOT && cs[i][1] == DOT);
        } else {
            let j = choose|j: int| 0 <= j < cleaned.len() && cs[i] == #[trigger] cleaned[j];
            let k = choose|k: int| 0 <= k < raw.len() && cleaned[j] == #[trigger] raw[k];
        }
    }
    if cs.len() > 0 && cs[0] != dotdot_component() {
        let q = join_components(cs);
        lemma_join_prefix_component(cs);
        let c = cs[0];
        assert(q[0] == c[0]);
        assert(c[0] != SEPARATOR);
        if starts_with_dotdot(q) {
            // The first component would have to be `.` or `..`, and
            // neither survives cleaning and collapsing.
            assert(q.len() >= 2 && q[0] == DOT && q[1] == DOT);
            if c.len() == 1 {
                assert(c =~= dot_component());
                let j = choose|j: int| 0 <= j < cleaned.len() && c == #[trigger] cleaned[j];
                assert(false);
            } else if c.len() == 2 {
                assert(c[0] == q[0] && c[1] == q[1]);
                assert(c =~= dotdot_component());
                assert(false);
            } else {
                // `c` is a prefix of `q` longer than two bytes, so either
                // `q` is exactly `..` (impossible: `c` is longer) or the
                // byte after `..` is both a separator and inside `c`.
                assert(q.len() > 2 && q[2] == SEPARATOR);
                assert(c[2] == q[2]);
                assert(false);
            }
        }
    }
    if forall|i: int| 0 <= i < cleaned.len() ==> #[trigger] cleaned[i] != dotdot_component() {
        lemma_collapse_no_dotdot(cleaned);
    }
}

/// Joins a root directory and a relative path with a single
/// separator between them.
pub open spec fn join_path(root: Seq<u8>, rel: Seq<u8>) -> Seq<u8> {
    if rel.len() == 0 {
        root
    } else if root.len() == 0 {
        rel
    } else if root.last() == SEPARATOR {
        root + rel
    } else {
        root + seq![SEPARATOR] + rel
    }
}

/// Joins a root directory and a relative path.
pub fn join_path_exec(root: &Vec<u8>, rel: &Vec<u8>) -> (r: Vec<u8>)
    ensures
        r@ == join_path(root@, rel@),
{
    if rel.len() == 0 {
        return clone_bytes(root);
    }
    if root.len() == 0 {
        return clone_bytes(rel);
    }
    let mut out = clone_bytes(root);
    if root[root.len() - 1] != SEPARATOR {
        out.push(SEPARATOR);
    }
    let ghost pre = out@;
    out.extend_from_slice(rel.as_slice());
    proof {
        assert(out@ =~= pre + rel@);
    }
    out
}

/// Collapse any `..` components in a path and turn it into a relative
/// path, stripping any leading separator.
///
/// If the `..` components cannot all be collapsed, the path escapes the
/// root and `None` is returned.
pub fn normalize(path: &Vec<u8>) -> (r: Option<Vec<u8>>)
    ensures
        match r {
            Some(q) => spec_normalize(path@) == Some(q@),
            None => spec_normalize(path@) is None,
        },
{
    // Split into raw components.
    let mut comps: Vec<Vec<u8>> = Vec::new();
    let mut cur: Vec<u8> = Vec::new();
    let mut i: usize = 0;
    while i < path.len()
        invariant
            i <= path.len(),
            (views(comps@), cur@) == split_state(path@.subrange(0, i as int)),
        decreases path.len() - i,
    {
        let ghost pre = path@.subrange(0, i as int);
        let ghost post = path@.subrange(0, i + 1);
        proof {
            assert(post.drop_last() =~= pre);
            assert(post.last() == path@[i as int]);
        }
        let b = path[i];
        if b == SEPARATOR {
            let ghost comps_pre = comps@;
            let ghost cur_view = cur@;
            comps.push(cur);
            cur = Vec::new();
            proof {
                assert(comps@.drop_last() =~= comps_pre);
                assert(views(comps@) == views(comps_pre).push(cur_view));
            }
        } else {
            cur.push(b);
        }
        i += 1;
    }
    proof {
        assert(path@.subrange(0, path@.len() as int) =~= path@);
    }
    let ghost comps_pre = comps@;
    let ghost cur_view = cur@;
    comps.push(cur);
    proof {
        assert(comps@.drop_last() =~= comps_pre);
        assert(views(comps@) == views(comps_pre).push(cur_view));
        assert(views(comps@) == raw_components(path@));
    }
    let ghost raw = raw_components(path@);
    proof {
        lemma_views_index(comps@);
    }
    // Clean and collapse in one pass.
    let mut acc: Vec<Vec<u8>> = Vec::new();
    let mut j: usize = 0;
    while j < comps.len()
        invariant
            j <= comps.len(),
            views(comps@) == raw,
            raw == raw_components(path@),
            comps@.len() == raw.len(),
            views(acc@) == collapse(clean_components(raw.subrange(0, j as int))),
        decreases comps.len() - j,
    {
        proof {
            lemma_views_index(comps@);
            assert(raw.subrange(0, j + 1).drop_last() =~= raw.subrange(0, j as int));
            assert(raw.subrange(0, j + 1).last() == raw[j as int]);
            assert(raw[j as int] == comps@[j as int]@);
        }
        let ghost cleaned_pre = clean_components(raw.subrange(0, j as int));
        let c_len = comps[j].len();
        let is_empty_or_dot = c_len == 0 || (c_len == 1 && comps[j][0] == DOT);
        let is_dotdot = c_len == 2 && comps[j][0] == DOT && comps[j][1] == DOT;
        proof {
            if is_empty_or_dot {
                if c_len == 1 {
                    assert(comps@[j as int]@ =~= dot_component());
                }
                assert(clean_components(raw.subrange(0, j + 1)) == cleaned_pre);
            } else {
                if is_dotdot {
                    assert(comps@[j as int]@ =~= dotdot_component());
                } else {
                    assert(comps@[j as int]@ != dot_component());
                    assert(comps@[j as int]@ != dotdot_component());
                }
                assert(clean_components(raw.subrange(0, j + 1)) == cleaned_pre.push(
                    comps@[j as int]@,
                ));
                assert(cleaned_pre.push(comps@[j as int]@).drop_last() =~= cleaned_pre);
            }
        }
        if is_empty_or_dot {
            // Cleaning drops this component; nothing changes.
        } else if is_dotdot {
            if acc.len() > 0 {
                let ghost acc_pre = acc@;
                proof {
                    lemma_views_index(acc_pre);
                }
                acc.pop();
                proof {
                    assert(acc@ =~= acc_pre.drop_last());
                    assert(views(acc_pre).drop_last() =~= views(acc_pre.drop_last()));
                }
            } else {
                let ghost acc_pre = acc@;
                let two = clone_bytes(&comps[j]);
                acc.push(two);
                proof {
                    lemma_views_index(acc_pre);
                    assert(acc@.drop_last() =~= acc_pre);
                    assert(views(acc@) == views(acc_pre).push(dotdot_component()));
                }
            }
        } else {
            let ghost acc_pre = acc@;
            let one = clone_bytes(&comps[j]);
            acc.push(one);
            proof {
                assert(acc@.drop_last() =~= acc_pre);
                assert(views(acc@) == views(acc_pre).push(comps@[j as int]@));
            }
        }
        j += 1;
    }
    proof {
        assert(raw.subrange(0, raw.len() as int) =~= raw);
        assert(views(acc@) == normal_components(path@));
        lemma_views_index(acc@);
    }
    // Reject a path that would escape the root.
    if acc.len() > 0 {
        let first_len = acc[0].len();
        if first_len == 2 && acc[0][0] == DOT && acc[0][1] == DOT {
            proof {
                assert(acc@[0]@ =~= dotdot_component());
            }
            return None;
        }
        proof {
            if acc@[0]@.len() == 2 && acc@[0]@ == dotdot_component() {
                assert(acc@[0]@[0] == DOT && acc@[0]@[1] == DOT);
            }
        }
    }
    let ghost cs = normal_components(path@);
    // Join the surviving components with separators.
    let mut out: Vec<u8> = Vec::new();
    let mut k: usize = 0;
    while k < acc.len()
        invariant
            k <= acc.len(),
            views(acc@) == cs,
            acc@.len() == cs.len(),
            out@ == join_components(cs.subrange(0, k as int)),
        decreases acc.len() - k,
    {
        proof {
            lemma_views_index(acc@);
            assert(cs.subrange(0, k + 1).drop_last() =~= cs.subrange(0, k as int));
            assert(cs.subrange(0, k + 1).last() == cs[k as int]);
        }
        if k > 0 {
            out.push(SEPARATOR);
        }
        let ghost out_pre = out@;
        let elem = &acc[k];
        out.extend_from_slice(elem.as_slice());
        proof {
            assert(out@ =~= out_pre + acc@[k as int]@);
            if k == 0 {
                assert(join_components(cs.subrange(0, 1)) == cs[0]);
                assert(out@ =~= cs[0]);
            } else {
                assert(join_components(cs.subrange(0, k + 1)) == join_components(
                    cs.subrange(0, k as int),
                ) + seq![SEPARATOR] + cs[k as int]);
            }
        }
        k += 1;
    }
    proof {
        assert(cs.subrange(0, cs.len() as int) =~= cs);
    }
    Some(out)
}

} // verus!
