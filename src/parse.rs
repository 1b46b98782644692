use vstd::prelude::*;
use crate::graph::{lemma_counts, DirectedAcyclicGraph};

verus! {

/// ASCII whitespace: space, tab, line feed, vertical tab, form feed,
/// carriage return.
pub open spec fn is_space(b: u8) -> bool {
    b == 32 || (9 <= b && b <= 13)
}

/// An ASCII decimal digit.
pub open spec fn is_digit(b: u8) -> bool {
    48 <= b && b <= 57
}

/// The lines of `b` that follow the partial line `cur`: each line ends at a
/// line feed, which it does not hold; a last line without one counts when
/// it is not empty.
pub open spec fn split_lines(b: Seq<u8>, cur: Seq<u8>) -> Seq<Seq<u8>>
    decreases b.len(),
{
    if b.len() == 0 {
        if cur.len() == 0 { seq![] } else { seq![cur] }
    } else if b[0] == 10 {
        seq![cur] + split_lines(b.drop_first(), seq![])
    } else {
        split_lines(b.drop_first(), cur.push(b[0]))
    }
}

/// The lines of a text.
pub open spec fn lines_of(b: Seq<u8>) -> Seq<Seq<u8>> {
    split_lines(b, seq![])
}

/// The words of `b` that follow the partial word `cur`: the maximal runs of
/// bytes that are not whitespace.
pub open spec fn split_words(b: Seq<u8>, cur: Seq<u8>) -> Seq<Seq<u8>>
    decreases b.len(),
{
    if b.len() == 0 {
        if cur.len() == 0 { seq![] } else { seq![cur] }
    } else if is_space(b[0]) {
        (if cur.len() == 0 { seq![] } else { seq![cur] }) + split_words(b.drop_first(), seq![])
    } else {
        split_words(b.drop_first(), cur.push(b[0]))
    }
}

/// The words of a line.
pub open spec fn words_of(b: Seq<u8>) -> Seq<Seq<u8>> {
    split_words(b, seq![])
}

/// The value of a string of decimal digits.
pub open spec fn digits_value(t: Seq<u8>) -> nat
    decreases t.len(),
{
    if t.len() == 0 {
        0
    } else {
        digits_value(t.drop_last()) * 10 + (t.last() - 48) as nat
    }
}

/// The digits of a numeral: what follows an optional leading `+`.
pub open spec fn numeral_digits(t: Seq<u8>) -> Seq<u8> {
    if t.len() > 0 && t[0] == 43 { t.drop_first() } else { t }
}

/// The value of numeral `t`, if it is one that fits in a `usize`: one or
/// more decimal digits, after an optional `+`.
pub open spec fn number_of(t: Seq<u8>) -> Option<usize> {
    let d = numeral_digits(t);
    if d.len() > 0 && (forall|i: int| 0 <= i < d.len() ==> is_digit(#[trigger] d[i]))
        && digits_value(d) <= usize::MAX {
        Some(digits_value(d) as usize)
    } else {
        None
    }
}

/// The two parents that a data line gives: exactly two words, each a
/// number.
pub open spec fn pair_of(line: Seq<u8>) -> Option<(usize, usize)> {
    let w = words_of(line);
    if w.len() == 2 && number_of(w[0]) is Some && number_of(w[1]) is Some {
        Some((number_of(w[0])->Some_0, number_of(w[1])->Some_0))
    } else {
        None
    }
}

/// The data lines of a text: all of its lines but the first, which holds a
/// node count that is not read.
pub open spec fn data_lines(b: Seq<u8>) -> Seq<Seq<u8>> {
    let l = lines_of(b);
    if l.len() == 0 { seq![] } else { l.drop_first() }
}

/// Every line of `lines` gives a pair of parents.
pub open spec fn all_pairs(lines: Seq<Seq<u8>>) -> bool {
    forall|k: int| 0 <= k < lines.len() ==> #[trigger] pair_of(lines[k]) is Some
}

/// The pairs of parents that well-formed data lines give, in order.
pub open spec fn records_of(lines: Seq<Seq<u8>>) -> Seq<(usize, usize)> {
    lines.map_values(|l: Seq<u8>| pair_of(l)->Some_0)
}

/// The nodes that records encode: record `i` declares node `i + 2` and names
/// its two parents.
pub open spec fn encoded_nodes(recs: Seq<(usize, usize)>) -> Set<usize> {
    Set::new(|x: usize| exists|i: int| 0 <= i < recs.len() && #[trigger] names(recs, i, x))
}

/// Record `i` declares node `x` or names it as a parent.
pub open spec fn names(recs: Seq<(usize, usize)>, i: int, x: usize) -> bool {
    x == i + 2 || x == recs[i].0 || x == recs[i].1
}

/// Record `i` encodes edge `e`, unless `e` joins a node to itself.
pub open spec fn links(recs: Seq<(usize, usize)>, i: int, e: (usize, usize)) -> bool {
    e.0 == i + 2 && (e.1 == recs[i].0 || e.1 == recs[i].1)
}

/// The edges that records encode: from node `i + 2` to each of its parents,
/// but never from a node to itself.
pub open spec fn encoded_edges(recs: Seq<(usize, usize)>) -> Set<(usize, usize)> {
    Set::new(|e: (usize, usize)| e.0 != e.1 && exists|i: int| 0 <= i < recs.len() && #[trigger] links(recs, i, e))
}

/// A data line that does not hold exactly two numbers.
#[derive(Debug, Clone, Copy, PartialEq, Eq)]
pub struct ParseError {
    /// The line's number in the text, counting the first line as 1.
    pub line: usize,
}

/// The byte strings held by a vector of byte vectors.
pub open spec fn byte_views(r: Seq<Vec<u8>>) -> Seq<Seq<u8>> {
    r.map_values(|v: Vec<u8>| v@)
}

/// Splits a text into its lines.
pub fn split_text_lines(input: &[u8]) -> (r: Vec<Vec<u8>>)
    ensures
        byte_views(r@) == lines_of(input@),
{
    let mut lines: Vec<Vec<u8>> = Vec::new();
    let mut cur: Vec<u8> = Vec::new();
    let mut i: usize = 0;
    assert(input@.subrange(0, input@.len() as int) =~= input@);
    assert(byte_views(lines@) + lines_of(input@) =~= lines_of(input@));
    while i < input.len()
        invariant
            i <= input.len(),
            byte_views(lines@) + split_lines(input@.subrange(i as int, input@.len() as int), cur@)
                == lines_of(input@),
        decreases input.len() - i,
    {
        let ghost rest = input@.subrange(i as int, input@.len() as int);
        assert(rest.drop_first() =~= input@.subrange(i + 1, input@.len() as int));
        assert(rest[0] == input@[i as int]);
        if input[i] == 10 {
            let ghost c = cur@;
            lines.push(cur);
            cur = Vec::new();
            assert(byte_views(lines@) =~= byte_views(lines@.drop_last()).push(c));
            assert(byte_views(lines@) + split_lines(input@.subrange(i + 1, input@.len() as int), cur@)
                =~= byte_views(lines@.drop_last()) + (seq![c] + split_lines(rest.drop_first(), seq![])));
        } else {
            cur.push(input[i]);
        }
        i = i + 1;
    }
    assert(input@.subrange(i as int, input@.len() as int).len() == 0);
    if cur.len() > 0 {
        let ghost c = cur@;
        lines.push(cur);
        assert(byte_views(lines@) =~= byte_views(lines@.drop_last()) + seq![c]);
    } else {
        assert(byte_views(lines@) =~= byte_views(lines@) + Seq::<Seq<u8>>::empty());
    }
    lines
}

/// Whether `b` is ASCII whitespace.
fn space(b: u8) -> (r: bool)
    ensures
        r == is_space(b),
{
    b == 32 || (9 <= b && b <= 13)
}

/// Splits a line into its words.
pub fn split_words_of(line: &[u8]) -> (r: Vec<Vec<u8>>)
    ensures
        byte_views(r@) == words_of(line@),
{
    let mut words: Vec<Vec<u8>> = Vec::new();
    let mut cur: Vec<u8> = Vec::new();
    let mut i: usize = 0;
    assert(line@.subrange(0, line@.len() as int) =~= line@);
    assert(byte_views(words@) + words_of(line@) =~= words_of(line@));
    while i < line.len()
        invariant
            i <= line.len(),
            byte_views(words@) + split_words(line@.subrange(i as int, line@.len() as int), cur@)
                == words_of(line@),
        decreases line.len() - i,
    {
        let ghost rest = line@.subrange(i as int, line@.len() as int);
        assert(rest.drop_first() =~= line@.subrange(i + 1, line@.len() as int));
        assert(rest[0] == line@[i as int]);
        if space(line[i]) {
            if cur.len() > 0 {
                let ghost c = cur@;
                words.push(cur);
                cur = Vec::new();
                assert(byte_views(words@) =~= byte_views(words@.drop_last()).push(c));
                assert(split_words(rest, c) == seq![c] + split_words(rest.drop_first(), seq![]));
                assert(byte_views(words@) + split_words(line@.subrange(i + 1, line@.len() as int), cur@)
                    =~= byte_views(words@.drop_last()) + (seq![c] + split_words(rest.drop_first(), seq![])));
            } else {
                assert(cur@ =~= Seq::<u8>::empty());
                assert(split_words(rest, cur@) == Seq::<Seq<u8>>::empty() + split_words(rest.drop_first(), seq![]));
                assert(split_words(rest, cur@) =~= split_words(rest.drop_first(), seq![]));
            }
        } else {
            let ghost c = cur@;
            cur.push(line[i]);
            assert(split_words(rest, c) == split_words(rest.drop_first(), c.push(rest[0])));
        }
        i = i + 1;
    }
    assert(line@.subrange(i as int, line@.len() as int).len() == 0);
    if cur.len() > 0 {
        let ghost c = cur@;
        words.push(cur);
        assert(byte_views(words@) =~= byte_views(words@.drop_last()) + seq![c]);
    } else {
        assert(byte_views(words@) =~= byte_views(words@) + Seq::<Seq<u8>>::empty());
    }
    words
}

/// The value of a prefix of a string of digits is at most the value of the
/// whole string.
pub proof fn lemma_digits_prefix(t: Seq<u8>, j: int)
    requires
        0 <= j <= t.len(),
    ensures
        digits_value(t.subrange(0, j)) <= digits_value(t),
    decreases t.len(),
{
    if j < t.len() {
        lemma_digits_prefix(t.drop_last(), j);
        assert(t.drop_last().subrange(0, j) =~= t.subrange(0, j));
    } else {
        assert(t.subrange(0, j) =~= t);
    }
}

/// A numeral with a byte that is not a digit at position `k` of its
/// digits, or with a value that does not fit, is no number.
proof fn lemma_not_number(t: Seq<u8>, k: int)
    requires
        0 <= k < numeral_digits(t).len() && !is_digit(numeral_digits(t)[k])
            || digits_value(numeral_digits(t)) > usize::MAX,
    ensures
        number_of(t) is None,
{
}

/// Reads a numeral: decimal digits after an optional `+`, with a value that
/// fits in a `usize`.
pub fn parse_number(t: &[u8]) -> (r: Option<usize>)
    ensures
        r == number_of(t@),
{
    let start: usize = if t.len() > 0 && t[0] == 43 { 1 } else { 0 };
    let ghost d = numeral_digits(t@);
    assert(d =~= t@.subrange(start as int, t@.len() as int));
    if start == t.len() {
        return None;
    }
    let mut v: usize = 0;
    let mut j: usize = start;
    assert(t@.subrange(start as int, start as int) =~= Seq::<u8>::empty());
    while j < t.len()
        invariant
            start <= j <= t.len(),
            start < t.len(),
            d == t@.subrange(start as int, t@.len() as int),
            d == numeral_digits(t@),
            v as nat == digits_value(t@.subrange(start as int, j as int)),
            forall|i: int| 0 <= i < j - start ==> is_digit(#[trigger] d[i]),
        decreases t.len() - j,
    {
        let b = t[j];
        let ghost next = t@.subrange(start as int, j + 1);
        assert(next.drop_last() =~= t@.subrange(start as int, j as int));
        assert(d.subrange(0, j + 1 - start) =~= next);
        assert(d[j - start] == b);
        assert(next.last() == b);
        if b < 48 || b > 57 {
            assert(!is_digit(d[j - start]));
            proof {
                lemma_not_number(t@, j - start);
            }
            return None;
        }
        match v.checked_mul(10) {
            None => {
                proof {
                    assert(digits_value(next) == v * 10 + (b - 48) as nat);
                    lemma_digits_prefix(d, j + 1 - start);
                    assert(digits_value(d) > usize::MAX);
                    lemma_not_number(t@, -1);
                }
                return None;
            },
            Some(w) => match w.checked_add((b - 48) as usize) {
                None => {
                    proof {
                        assert(digits_value(next) == v * 10 + (b - 48) as nat);
                        lemma_digits_prefix(d, j + 1 - start);
                    }
                    return None;
                },
                Some(x) => {
                    v = x;
                },
            },
        }
        j = j + 1;
    }
    assert(t@.subrange(start as int, j as int) =~= d);
    Some(v)
}

/// Reads a data line: exactly two words, each a numeral.
pub fn parse_pair(line: &[u8]) -> (r: Option<(usize, usize)>)
    ensures
        r == pair_of(line@),
{
    let words = split_words_of(line);
    if words.len() != 2 {
        return None;
    }
    assert(byte_views(words@)[0] == words@[0]@);
    assert(byte_views(words@)[1] == words@[1]@);
    let a = parse_number(words[0].as_slice());
    let b = parse_number(words[1].as_slice());
    match (a, b) {
        (Some(x), Some(y)) => Some((x, y)),
        _ => None,
    }
}

/// One more record adds its node, its parents and its edges to what the
/// records before it encode.
pub proof fn lemma_encoded_push(recs: Seq<(usize, usize)>, x: (usize, usize))
    requires
        recs.len() + 2 <= usize::MAX,
    ensures
        encoded_nodes(recs.push(x)) == encoded_nodes(recs).insert((recs.len() + 2) as usize).insert(x.0).insert(x.1),
        encoded_edges(recs.push(x)) == encoded_edges(recs).union(
            Set::new(|e: (usize, usize)| e.0 == recs.len() + 2 && e.0 != e.1 && (e.1 == x.0 || e.1 == x.1)),
        ),
{
    let n = recs.len() as int;
    let r2 = recs.push(x);
    assert forall|y: usize| encoded_nodes(r2).contains(y) <==> encoded_nodes(recs).insert((n + 2) as usize).insert(x.0).insert(x.1).contains(y) by {
        if encoded_nodes(r2).contains(y) {
            let i = choose|i: int| 0 <= i < r2.len() && #[trigger] names(r2, i, y);
            if i < n {
                assert(r2[i] == recs[i]);
                assert(names(recs, i, y));
            }
        }
        if encoded_nodes(recs).contains(y) {
            let i = choose|i: int| 0 <= i < recs.len() && #[trigger] names(recs, i, y);
            assert(r2[i] == recs[i]);
            assert(names(r2, i, y));
        }
        if y == n + 2 || y == x.0 || y == x.1 {
            assert(r2[n] == x);
            assert(names(r2, n, y));
        }
    }
    assert(encoded_nodes(r2) =~= encoded_nodes(recs).insert((n + 2) as usize).insert(x.0).insert(x.1));
    let extra = Set::new(|e: (usize, usize)| e.0 == recs.len() + 2 && e.0 != e.1 && (e.1 == x.0 || e.1 == x.1));
    assert forall|e: (usize, usize)| encoded_edges(r2).contains(e) <==> encoded_edges(recs).union(extra).contains(e) by {
        if encoded_edges(r2).contains(e) {
            let i = choose|i: int| 0 <= i < r2.len() && #[trigger] links(r2, i, e);
            if i < n {
                assert(r2[i] == recs[i]);
                assert(links(recs, i, e));
            }
        }
        if encoded_edges(recs).contains(e) {
            let i = choose|i: int| 0 <= i < recs.len() && #[trigger] links(recs, i, e);
            assert(r2[i] == recs[i]);
            assert(links(r2, i, e));
        }
        if extra.contains(e) {
            assert(r2[n] == x);
            assert(links(r2, n, e));
        }
    }
    assert(encoded_edges(r2) =~= encoded_edges(recs).union(extra));
}

impl DirectedAcyclicGraph {
    /// Builds a graph from its text encoding. The first line holds a node
    /// count, which is not read; the data line at position `i` (counted
    /// from 0) declares node `i + 2` with the two parents it names, and an
    /// edge from the node to each parent that is not the node itself.
    /// The first data line that does not hold exactly two numbers is
    /// reported by its line number, and no graph is built.
    pub fn from_bytes(input: &[u8]) -> (r: Result<DirectedAcyclicGraph, ParseError>)
        ensures
            r is Ok <==> all_pairs(data_lines(input@)),
            r matches Err(e) ==> {
                &&& 2 <= e.line < data_lines(input@).len() + 2
                &&& pair_of(data_lines(input@)[e.line - 2]) is None
                &&& all_pairs(data_lines(input@).take(e.line - 2))
            },
            r matches Ok(g) ==> {
                &&& g.wf()
                &&& g.node_set() == encoded_nodes(records_of(data_lines(input@)))
                &&& g.edge_set() == encoded_edges(records_of(data_lines(input@)))
                &&& g.node_seq().len() == encoded_nodes(records_of(data_lines(input@))).len()
                &&& g.edge_seq().len() == encoded_edges(records_of(data_lines(input@))).len()
            },
    {
        let lines = split_text_lines(input);
        let ghost data = data_lines(input@);
        let mut g = DirectedAcyclicGraph::new();
        if lines.len() == 0 {
            proof {
                assert(encoded_nodes(records_of(data)) =~= Set::<usize>::empty());
                assert(encoded_edges(records_of(data)) =~= Set::<(usize, usize)>::empty());
                lemma_counts(&g);
            }
            return Ok(g);
        }
        assert(data =~= byte_views(lines@).drop_first());
        let mut k: usize = 1;
        assert(records_of(data.take(0)) =~= Seq::<(usize, usize)>::empty());
        assert(encoded_nodes(records_of(data.take(0))) =~= Set::<usize>::empty());
        assert(encoded_edges(records_of(data.take(0))) =~= Set::<(usize, usize)>::empty());
        while k < lines.len()
            invariant
                1 <= k <= lines.len(),
                data == byte_views(lines@).drop_first(),
                data == data_lines(input@),
                g.wf(),
                all_pairs(data.take(k - 1)),
                g.node_set() == encoded_nodes(records_of(data.take(k - 1))),
                g.edge_set() == encoded_edges(records_of(data.take(k - 1))),
            decreases lines.len() - k,
        {
            let ghost prefix = data.take(k - 1);
            assert(data.take(k as int) =~= prefix.push(data[k - 1]));
            assert(data[k - 1] == lines@[k as int]@);
            match parse_pair(lines[k].as_slice()) {
                None => {
                    proof {
                        assert(data.take(k - 1) =~= data.take((k + 1) - 2));
                        assert(!all_pairs(data));
                    }
                    return Err(ParseError { line: k + 1 });
                },
                Some((left, right)) => {
                    let id = k + 1;
                    proof {
                        assert forall|j: int| 0 <= j < k as int implies #[trigger] pair_of(data.take(k as int)[j]) is Some by {
                            if j < k - 1 {
                                assert(data.take(k as int)[j] == prefix[j]);
                            }
                        }
                        assert(records_of(data.take(k as int)) =~= records_of(prefix).push((left, right)));
                        lemma_encoded_push(records_of(prefix), (left, right));
                    }
                    g.insert_node(id);
                    g.insert_node(left);
                    g.insert_node(right);
                    let ghost before = g.edge_set();
                    if left != id {
                        g.add_edge(id, left);
                    }
                    if right != id {
                        g.add_edge(id, right);
                    }
                    proof {
                        let extra = Set::new(|e: (usize, usize)| e.0 == prefix.len() + 2 && e.0 != e.1 && (e.1 == left || e.1 == right));
                        assert(g.edge_set() =~= before.union(extra));
                        assert(g.node_set() =~= encoded_nodes(records_of(data.take(k as int))));
                    }
                },
            }
            k = k + 1;
        }
        proof {
            assert(data.take(k - 1) =~= data);
            lemma_counts(&g);
        }
        Ok(g)
    }
}

} // verus!
