//! Majority vote over the labels of the selected neighbours.
use vstd::prelude::*;

verus! {

/// The labels of a sequence of strings, as character sequences.
pub open spec fn label_views(s: Seq<String>) -> Seq<Seq<char>> {
    s.map_values(|x: String| x@)
}

/// Number of occurrences of `l` in `s`.
pub open spec fn count(s: Seq<Seq<char>>, l: Seq<char>) -> nat
    decreases s.len(),
{
    if s.len() == 0 {
        0
    } else {
        count(s.drop_last(), l) + if s.last() == l {
            1nat
        } else {
            0nat
        }
    }
}

/// Position `w` holds the winning vote: no label occurs more often than
/// `s[w]`, and among the labels that occur as often, `s[w]` is the first to
/// appear (the nearest neighbour wins a tie).
pub open spec fn is_winner(s: Seq<Seq<char>>, w: int) -> bool {
    &&& 0 <= w < s.len()
    &&& forall|i: int|
        0 <= i < s.len() ==> count(s, #[trigger] s[i]) < count(s, s[w]) || (count(s, s[i]) == count(
            s,
            s[w],
        ) && w <= i)
}

/// `p` is the outcome of the vote over `s`: none for no votes, otherwise the
/// label at the winning position.
pub open spec fn is_vote(s: Seq<Seq<char>>, p: Option<Seq<char>>) -> bool {
    match p {
        None => s.len() == 0,
        Some(l) => exists|w: int| is_winner(s, w) && s[w] == l,
    }
}

/// The character view of an optional label.
pub open spec fn option_view(p: Option<String>) -> Option<Seq<char>> {
    match p {
        None => None,
        Some(l) => Some(l@),
    }
}

pub proof fn lemma_count_prefix(s: Seq<Seq<char>>, j: int, l: Seq<char>)
    requires
        0 <= j < s.len(),
    ensures
        count(s.subrange(0, j + 1), l) == count(s.subrange(0, j), l) + if s[j] == l {
            1nat
        } else {
            0nat
        },
{
    assert(s.subrange(0, j + 1).drop_last() =~= s.subrange(0, j));
}

proof fn lemma_count_bound(s: Seq<Seq<char>>, l: Seq<char>)
    ensures
        count(s, l) <= s.len(),
    decreases s.len(),
{
    if s.len() > 0 {
        lemma_count_bound(s.drop_last(), l);
    }
}

/// Number of labels in `labels` equal to `labels[t]`.
fn count_label(labels: &Vec<String>, t: usize) -> (c: usize)
    requires
        t < labels.len(),
    ensures
        c == count(label_views(labels@), labels@[t as int]@),
{
    let ghost s = label_views(labels@);
    let ghost l = labels@[t as int]@;
    let mut c: usize = 0;
    let mut j: usize = 0;
    while j < labels.len()
        invariant
            s == label_views(labels@),
            l == labels@[t as int]@,
            t < labels.len(),
            j <= labels.len(),
            c <= j,
            c == count(s.subrange(0, j as int), l),
        decreases labels.len() - j,
    {
        proof {
            lemma_count_prefix(s, j as int, l);
        }
        if labels[j] == labels[t] {
            c = c + 1;
        }
        j = j + 1;
    }
    assert(s.subrange(0, j as int) =~= s);
    c
}

/// The label that occurs most often in `labels`; a tie goes to the label that
/// appears first. `None` when `labels` is empty.
pub fn majority_label(labels: &Vec<String>) -> (r: Option<String>)
    ensures
        is_vote(label_views(labels@), option_view(r)),
{
    let ghost s = label_views(labels@);
    if labels.len() == 0 {
        return None;
    }
    let mut best: usize = 0;
    let mut best_count: usize = count_label(labels, 0);
    let mut i: usize = 1;
    while i < labels.len()
        invariant
            s == label_views(labels@),
            0 < labels.len(),
            best < i <= labels.len(),
            best_count == count(s, s[best as int]),
            forall|t: int|
                0 <= t < i ==> count(s, #[trigger] s[t]) < count(s, s[best as int]) || (count(
                    s,
                    s[t],
                ) == count(s, s[best as int]) && best <= t),
        decreases labels.len() - i,
    {
        let c = count_label(labels, i);
        if c > best_count {
            best = i;
            best_count = c;
        }
        i = i + 1;
    }
    let r = labels[best].clone();
    assert(is_winner(s, best as int));
    Some(r)
}

/// At most one position holds the winning vote.
pub proof fn lemma_winner_unique(s: Seq<Seq<char>>, w1: int, w2: int)
    requires
        is_winner(s, w1),
        is_winner(s, w2),
    ensures
        w1 == w2,
{
    assert(count(s, s[w2]) < count(s, s[w1]) || (count(s, s[w2]) == count(s, s[w1]) && w1 <= w2));
    assert(count(s, s[w1]) < count(s, s[w2]) || (count(s, s[w1]) == count(s, s[w2]) && w2 <= w1));
}

} // verus!
