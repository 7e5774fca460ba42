//! The edge-list ingestion loader: each input line holds two
//! whitespace-separated unsigned 32-bit integers, `<source-id>
//! <target-id>`, one directed edge per line. The loader adds one node per
//! first-seen identifier and one edge per line, with a uniform payload of
//! `1`; a malformed line (non-numeric or missing second field) is a fatal
//! ingestion error and yields no graph at all.

use vstd::prelude::*;

use crate::adjlistgraph::AdjListGraph;
use crate::graph::Graph;

verus! {

/// The bytes that separate fields within a line.
pub open spec fn is_space(c: u8) -> bool {
    c == 32 || c == 9 || c == 13
}

/// The decimal digit bytes.
pub open spec fn is_digit(c: u8) -> bool {
    48 <= c <= 57
}

/// The value of a sequence of decimal digit bytes.
pub open spec fn digits_val(t: Seq<u8>) -> nat
    decreases t.len(),
{
    if t.len() == 0 {
        0
    } else {
        digits_val(t.drop_last()) * 10 + (t.last() - 48) as nat
    }
}

/// Every byte of `t` is a decimal digit.
pub open spec fn all_digits(t: Seq<u8>) -> bool {
    forall|i: int| 0 <= i < t.len() ==> is_digit(#[trigger] t[i])
}

/// `t` is a well-formed decimal token for a 32-bit unsigned integer.
pub open spec fn is_u32_token(t: Seq<u8>) -> bool {
    t.len() > 0 && all_digits(t) && digits_val(t) <= u32::MAX
}

/// The first position at or after `i`, and before `hi`, holding a
/// non-space byte; `hi` if there is none.
pub open spec fn skip_ws_to(s: Seq<u8>, i: int, hi: int) -> int
    decreases hi - i when 0 <= i <= hi <= s.len()
{
    if i < hi && is_space(s[i]) {
        skip_ws_to(s, i + 1, hi)
    } else {
        i
    }
}

/// The first position at or after `i`, and before `hi`, holding a space
/// byte; `hi` if there is none.
pub open spec fn token_end_to(s: Seq<u8>, i: int, hi: int) -> int
    decreases hi - i when 0 <= i <= hi <= s.len()
{
    if i < hi && !is_space(s[i]) {
        token_end_to(s, i + 1, hi)
    } else {
        i
    }
}

/// The first position at or after `i` holding a line feed; the input's
/// length if there is none.
pub open spec fn first_nl(s: Seq<u8>, i: int) -> int
    decreases s.len() - i when 0 <= i <= s.len()
{
    if i < s.len() && s[i] != 10 {
        first_nl(s, i + 1)
    } else {
        i
    }
}

proof fn lemma_first_nl_bounds(s: Seq<u8>, i: int)
    requires
        0 <= i <= s.len(),
    ensures
        i <= first_nl(s, i) <= s.len(),
    decreases s.len() - i,
{
    if i < s.len() && s[i] != 10 {
        lemma_first_nl_bounds(s, i + 1);
    }
}

/// What one line, the bytes from `lo` up to `hi`, denotes: the two
/// integers of its first two fields, or nothing if a field is missing or
/// not a number. Bytes after the second field are ignored.
pub open spec fn spec_parse_line_range(s: Seq<u8>, lo: int, hi: int) -> Option<(u32, u32)>
    recommends
        0 <= lo <= hi <= s.len(),
{
    let i0 = skip_ws_to(s, lo, hi);
    let i1 = token_end_to(s, i0, hi);
    let i2 = skip_ws_to(s, i1, hi);
    let i3 = token_end_to(s, i2, hi);
    if i0 < i1 && i2 < i3 && is_u32_token(s.subrange(i0, i1)) && is_u32_token(s.subrange(i2, i3)) {
        Some((digits_val(s.subrange(i0, i1)) as u32, digits_val(s.subrange(i2, i3)) as u32))
    } else {
        None
    }
}

/// What the input denotes from position `i` on: the sequence of edge
/// pairs, one per line, or nothing if any line is malformed.
pub open spec fn spec_parse_from(s: Seq<u8>, i: int) -> Option<Seq<(u32, u32)>>
    decreases s.len() - i when 0 <= i <= s.len() via spec_parse_from_decreases
{
    if i >= s.len() {
        Some(Seq::empty())
    } else {
        let j = first_nl(s, i);
        match spec_parse_line_range(s, i, j) {
            None => None,
            Some(p) => {
                let next = if j == s.len() {
                    j
                } else {
                    j + 1
                };
                match spec_parse_from(s, next) {
                    None => None,
                    Some(rest) => Some(seq![p] + rest),
                }
            },
        }
    }
}

#[via_fn]
proof fn spec_parse_from_decreases(s: Seq<u8>, i: int) {
    lemma_first_nl_bounds(s, i);
}

/// The distinct identifiers of `pairs` in order of first appearance,
/// the source of each pair before its target.
pub open spec fn spec_ids(pairs: Seq<(u32, u32)>) -> Seq<u32>
    decreases pairs.len(),
{
    if pairs.len() == 0 {
        Seq::empty()
    } else {
        let prev = spec_ids(pairs.drop_last());
        let p = pairs.last();
        let with0 = if prev.contains(p.0) {
            prev
        } else {
            prev.push(p.0)
        };
        if with0.contains(p.1) {
            with0
        } else {
            with0.push(p.1)
        }
    }
}

/// A value of a digit prefix never exceeds the whole token's value.
proof fn lemma_digits_val_prefix_le(t: Seq<u8>, k: int)
    requires
        0 <= k <= t.len(),
    ensures
        digits_val(t.subrange(0, k)) <= digits_val(t),
    decreases t.len() - k,
{
    if k < t.len() {
        assert(t.subrange(0, k + 1).drop_last() =~= t.subrange(0, k));
        assert(t.subrange(0, k + 1).last() == t[k]);
        lemma_digits_val_prefix_le(t, k + 1);
        assert(t.subrange(0, t.len() as int) =~= t);
    } else {
        assert(t.subrange(0, k) =~= t);
    }
}

/// Reads the decimal token at `from..to`; the result is exactly the
/// token's denotation, and there is one exactly when the token is a
/// well-formed 32-bit decimal.
fn parse_u32_range(input: &[u8], from: usize, to: usize) -> (r: Option<u32>)
    requires
        from <= to <= input@.len(),
    ensures
        r is Some <==> is_u32_token(input@.subrange(from as int, to as int)),
        r is Some ==> r.unwrap() == digits_val(input@.subrange(from as int, to as int)),
{
    let ghost tok = input@.subrange(from as int, to as int);
    if from == to {
        return None;
    }
    let mut acc: u64 = 0;
    let mut t = from;
    while t < to
        invariant
            from <= t <= to <= input@.len(),
            tok == input@.subrange(from as int, to as int),
            all_digits(input@.subrange(from as int, t as int)),
            acc == digits_val(input@.subrange(from as int, t as int)),
            acc <= u32::MAX,
        decreases to - t,
    {
        let c = input[t];
        proof {
            assert(c == tok[t - from]);
        }
        if !(48 <= c && c <= 57) {
            proof {
                assert(!all_digits(tok));
            }
            return None;
        }
        let d = (c - 48) as u64;
        let next = acc * 10 + d;
        proof {
            assert(input@.subrange(from as int, t + 1).drop_last() =~= input@.subrange(
                from as int,
                t as int,
            ));
            assert(input@.subrange(from as int, t + 1).last() == c);
        }
        if next > 0xFFFF_FFFF {
            proof {
                if all_digits(tok) {
                    assert(tok.subrange(0, t + 1 - from) =~= input@.subrange(from as int, t + 1));
                    lemma_digits_val_prefix_le(tok, t + 1 - from);
                }
            }
            return None;
        }
        acc = next;
        t = t + 1;
        proof {
            assert forall|i: int| 0 <= i < t - from implies is_digit(
                #[trigger] input@.subrange(from as int, t as int)[i],
            ) by {
                if i < t - 1 - from {
                    assert(input@.subrange(from as int, t - 1)[i] == input@.subrange(
                        from as int,
                        t as int,
                    )[i]);
                }
            }
        }
    }
    proof {
        assert(input@.subrange(from as int, t as int) =~= tok);
    }
    Some(acc as u32)
}

/// Finds the end of the whitespace run starting at `from`, looking no
/// further than `hi`.
fn skip_ws_at(input: &[u8], from: usize, hi: usize) -> (r: usize)
    requires
        from <= hi <= input@.len(),
    ensures
        from <= r <= hi,
        r == skip_ws_to(input@, from as int, hi as int),
{
    let mut t = from;
    while t < hi && (input[t] == 32 || input[t] == 9 || input[t] == 13)
        invariant
            from <= t <= hi <= input@.len(),
            skip_ws_to(input@, from as int, hi as int) == skip_ws_to(input@, t as int, hi as int),
        decreases hi - t,
    {
        t = t + 1;
    }
    t
}

/// Finds the end of the token starting at `from`, looking no further than
/// `hi`.
fn token_end_at(input: &[u8], from: usize, hi: usize) -> (r: usize)
    requires
        from <= hi <= input@.len(),
    ensures
        from <= r <= hi,
        r == token_end_to(input@, from as int, hi as int),
{
    let mut t = from;
    while t < hi && !(input[t] == 32 || input[t] == 9 || input[t] == 13)
        invariant
            from <= t <= hi <= input@.len(),
            token_end_to(input@, from as int, hi as int) == token_end_to(
                input@,
                t as int,
                hi as int,
            ),
        decreases hi - t,
    {
        t = t + 1;
    }
    t
}

/// Finds the end of the line starting at `from`: the position of the next
/// line feed, or the input's length.
fn line_end_at(input: &[u8], from: usize) -> (r: usize)
    requires
        from <= input@.len(),
    ensures
        from <= r <= input@.len(),
        r == first_nl(input@, from as int),
        r < input@.len() ==> input@[r as int] == 10,
{
    let mut t = from;
    while t < input.len() && input[t] != 10
        invariant
            from <= t <= input@.len(),
            first_nl(input@, from as int) == first_nl(input@, t as int),
        decreases input@.len() - t,
    {
        t = t + 1;
    }
    t
}

/// Reads one line's two fields; the result is exactly what the line
/// denotes.
fn parse_line_range(input: &[u8], lo: usize, hi: usize) -> (r: Option<(u32, u32)>)
    requires
        lo <= hi <= input@.len(),
    ensures
        r == spec_parse_line_range(input@, lo as int, hi as int),
{
    let i0 = skip_ws_at(input, lo, hi);
    let i1 = token_end_at(input, i0, hi);
    let i2 = skip_ws_at(input, i1, hi);
    let i3 = token_end_at(input, i2, hi);
    if !(i0 < i1 && i2 < i3) {
        return None;
    }
    let a = match parse_u32_range(input, i0, i1) {
        Some(a) => a,
        None => {
            return None;
        },
    };
    let b = match parse_u32_range(input, i2, i3) {
        Some(b) => b,
        None => {
            return None;
        },
    };
    Some((a, b))
}

/// Looks an identifier up in the id-to-handle table.
fn find_id(map: &Vec<(u32, usize)>, id: u32) -> (r: Option<usize>)
    ensures
        r is Some ==> exists|k: int|
            0 <= k < map@.len() && #[trigger] map@[k].0 == id && map@[k].1 == r.unwrap(),
        r is None ==> forall|k: int| 0 <= k < map@.len() ==> #[trigger] map@[k].0 != id,
{
    let mut k: usize = 0;
    while k < map.len()
        invariant
            k <= map@.len(),
            forall|j: int| 0 <= j < k ==> #[trigger] map@[j].0 != id,
        decreases map@.len() - k,
    {
        if map[k].0 == id {
            return Some(map[k].1);
        }
        k = k + 1;
    }
    None
}

/// Builds an index-table graph from edge-list text: one node per
/// first-seen identifier, carrying that identifier, and one edge per
/// line, carrying the uniform weight `1`; returns nothing if any line is
/// malformed.
pub fn load_edge_list(input: &[u8]) -> (r: Option<AdjListGraph<u32, i32>>)
    ensures
        r is Some <==> spec_parse_from(input@, 0) is Some,
        r is Some ==> {
            let g = r.unwrap();
            let pairs = spec_parse_from(input@, 0).unwrap();
            let ids = spec_ids(pairs);
            &&& g.wf()
            &&& g.spec_order() == ids.len()
            &&& g.spec_size() == pairs.len()
            &&& forall|k: usize| g.spec_has_node(k) <==> (k as int) < ids.len()
            &&& forall|k: usize| g.spec_has_node(k) ==> g.spec_node_data(k) == ids[k as int]
            &&& forall|e: usize| g.spec_has_edge(e) <==> (e as int) < pairs.len()
            &&& forall|e: usize|
                #![trigger g.spec_has_edge(e)]
                g.spec_has_edge(e) ==> {
                    &&& g.spec_edge_data(e) == 1i32
                    &&& g.spec_has_node(g.spec_edge_start(e))
                    &&& g.spec_has_node(g.spec_edge_end(e))
                    &&& g.spec_node_data(g.spec_edge_start(e)) == pairs[e as int].0
                    &&& g.spec_node_data(g.spec_edge_end(e)) == pairs[e as int].1
                }
        },
{
    let mut g = AdjListGraph::<u32, i32>::new();
    let mut map: Vec<(u32, usize)> = Vec::new();
    let mut pos: usize = 0;
    let ghost mut pairs_done: Seq<(u32, u32)> = Seq::empty();
    while pos < input.len()
        invariant
            pos <= input@.len(),
            spec_parse_from(input@, 0) is Some <==> spec_parse_from(input@, pos as int) is Some,
            spec_parse_from(input@, pos as int) is Some ==> spec_parse_from(input@, 0) == Some(
                pairs_done + spec_parse_from(input@, pos as int).unwrap(),
            ),
            g.wf(),
            map@.len() == spec_ids(pairs_done).len(),
            forall|k: int|
                0 <= k < map@.len() ==> #[trigger] map@[k] == (spec_ids(pairs_done)[k], k as usize),
            g.spec_order() == spec_ids(pairs_done).len(),
            g.spec_node_bound() == spec_ids(pairs_done).len(),
            forall|k: usize| g.spec_has_node(k) <==> (k as int) < spec_ids(pairs_done).len(),
            forall|k: usize|
                #![trigger g.spec_node_data(k)]
                g.spec_has_node(k) ==> g.spec_node_data(k) == spec_ids(pairs_done)[k as int],
            g.spec_size() == pairs_done.len(),
            g.spec_edge_bound() == pairs_done.len(),
            forall|e: usize| g.spec_has_edge(e) <==> (e as int) < pairs_done.len(),
            forall|e: usize|
                #![trigger g.spec_has_edge(e)]
                g.spec_has_edge(e) ==> {
                    &&& g.spec_edge_data(e) == 1i32
                    &&& g.spec_has_node(g.spec_edge_start(e))
                    &&& g.spec_has_node(g.spec_edge_end(e))
                    &&& g.spec_node_data(g.spec_edge_start(e)) == pairs_done[e as int].0
                    &&& g.spec_node_data(g.spec_edge_end(e)) == pairs_done[e as int].1
                },
        decreases input@.len() - pos,
    {
        let end = line_end_at(input, pos);
        let pair = match parse_line_range(input, pos, end) {
            Some(p) => p,
            None => {
                return None;
            },
        };
        let ghost ids0 = spec_ids(pairs_done);
        let ha = match find_id(&map, pair.0) {
            Some(h) => {
                proof {
                    assert(map.len() == map@.len());
                    let k = choose|k: int|
                        0 <= k < map@.len() && #[trigger] map@[k].0 == pair.0 && map@[k].1 == h;
                    assert(map@[k] == (ids0[k], k as usize));
                    assert(0 <= k < map@.len());
                    assert((k as usize) as int == k);
                    assert(ids0[k] == pair.0);
                    assert(ids0.contains(pair.0));
                    assert(h == k as usize);
                }
                h
            },
            None => {
                proof {
                    assert forall|k: int| 0 <= k < ids0.len() implies ids0[k] != pair.0 by {
                        assert(map@[k].0 != pair.0);
                    }
                    assert(!ids0.contains(pair.0));
                }
                let h = g.add_node(pair.0);
                map.push((pair.0, h));
                h
            },
        };
        let ghost ids1 = if ids0.contains(pair.0) {
            ids0
        } else {
            ids0.push(pair.0)
        };
        proof {
            assert(map@.len() == ids1.len());
            assert(g.spec_node_data(ha) == pair.0);
            assert(g.spec_has_node(ha));
        }
        let hb = match find_id(&map, pair.1) {
            Some(h) => {
                proof {
                    assert(map.len() == map@.len());
                    let k = choose|k: int|
                        0 <= k < map@.len() && #[trigger] map@[k].0 == pair.1 && map@[k].1 == h;
                    assert(map@[k] == (ids1[k], k as usize));
                    assert(0 <= k < map@.len());
                    assert((k as usize) as int == k);
                    assert(ids1[k] == pair.1);
                    assert(ids1.contains(pair.1));
                    assert(h == k as usize);
                }
                h
            },
            None => {
                proof {
                    assert forall|k: int| 0 <= k < ids1.len() implies ids1[k] != pair.1 by {
                        assert(map@[k].0 != pair.1);
                    }
                    assert(!ids1.contains(pair.1));
                }
                let h = g.add_node(pair.1);
                map.push((pair.1, h));
                h
            },
        };
        let ghost ids2 = if ids1.contains(pair.1) {
            ids1
        } else {
            ids1.push(pair.1)
        };
        proof {
            assert(map@.len() == ids2.len());
            assert(g.spec_node_data(hb) == pair.1);
            assert(g.spec_has_node(hb));
            assert(g.spec_has_node(ha));
            assert(g.spec_node_data(ha) == pair.0);
        }
        let ghost g_before_edge = g;
        let e = g.add_edge(ha, hb, 1);
        proof {
            assert(e is Some);
        }
        let ghost old_pairs = pairs_done;
        proof {
            pairs_done = pairs_done.push((pair.0, pair.1));
            assert(pairs_done.drop_last() =~= old_pairs);
            assert(spec_ids(pairs_done) == ids2);
            assert forall|k: usize| g.spec_has_node(k) implies g.spec_node_data(k) == spec_ids(
                pairs_done,
            )[k as int] by {
                assert(g.spec_node_data(k) == g_before_edge.spec_node_data(k));
            }
            assert forall|e2: usize|
                #![trigger g.spec_has_edge(e2)]
                g.spec_has_edge(e2) implies {
                &&& g.spec_edge_data(e2) == 1i32
                &&& g.spec_has_node(g.spec_edge_start(e2))
                &&& g.spec_has_node(g.spec_edge_end(e2))
                &&& g.spec_node_data(g.spec_edge_start(e2)) == pairs_done[e2 as int].0
                &&& g.spec_node_data(g.spec_edge_end(e2)) == pairs_done[e2 as int].1
            } by {
                if e2 == e.unwrap() {
                    assert(g.spec_edge_start(e2) == ha);
                    assert(g.spec_edge_end(e2) == hb);
                } else {
                    assert(g_before_edge.spec_has_edge(e2));
                    assert(g.spec_edge_start(e2) == g_before_edge.spec_edge_start(e2));
                    assert(g.spec_edge_end(e2) == g_before_edge.spec_edge_end(e2));
                    assert(pairs_done[e2 as int] == old_pairs[e2 as int]);
                }
            }
            // step the parse bridge
            assert(first_nl(input@, pos as int) == end);
            let next: int = if end == input@.len() {
                end as int
            } else {
                end as int + 1
            };
            assert(spec_parse_from(input@, pos as int) == (match spec_parse_from(input@, next) {
                None => None::<Seq<(u32, u32)>>,
                Some(rest) => Some(seq![(pair.0, pair.1)] + rest),
            }));
            if spec_parse_from(input@, next) is Some {
                let rest = spec_parse_from(input@, next).unwrap();
                assert(old_pairs + (seq![(pair.0, pair.1)] + rest) =~= pairs_done + rest);
            }
        }
        pos = if end == input.len() {
            end
        } else {
            end + 1
        };
    }
    proof {
        assert(spec_parse_from(input@, pos as int) == Some(Seq::<(u32, u32)>::empty()));
        assert(pairs_done + Seq::<(u32, u32)>::empty() =~= pairs_done);
    }
    Some(g)
}

} // verus!
