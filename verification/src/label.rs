//! The syntax of a label path: labels, and the text in which dots separate
//! them.

use vstd::prelude::*;

verus! {

/// The characters of a label: ASCII letters and digits, `_`, and `-`, which
/// PostgreSQL takes from version 16 on.
pub open spec fn is_label_char(c: char) -> bool {
    ||| 'a' <= c <= 'z'
    ||| 'A' <= c <= 'Z'
    ||| '0' <= c <= '9'
    ||| c == '_'
    ||| c == '-'
}

/// A label is one or more label characters.
pub open spec fn is_label(s: Seq<char>) -> bool {
    &&& s.len() > 0
    &&& forall|i: int| 0 <= i < s.len() ==> is_label_char(#[trigger] s[i])
}

pub open spec fn all_labels(labels: Seq<Seq<char>>) -> bool {
    forall|i: int| 0 <= i < labels.len() ==> is_label(#[trigger] labels[i])
}

/// The text of a path: made of label characters and dots, where every dot
/// stands between two label characters. The empty text is the empty path.
pub open spec fn is_path_text(t: Seq<char>) -> bool {
    &&& forall|i: int| 0 <= i < t.len() ==> is_label_char(#[trigger] t[i]) || t[i] == '.'
    &&& forall|i: int|
        0 <= i < t.len() && #[trigger] t[i] == '.' ==> 0 < i < t.len() - 1 && t[i - 1] != '.'
            && t[i + 1] != '.'
}

/// The labels with a dot between each two.
pub open spec fn join(labels: Seq<Seq<char>>) -> Seq<char>
    decreases labels.len(),
{
    if labels.len() == 0 {
        Seq::empty()
    } else if labels.len() == 1 {
        labels[0]
    } else {
        labels[0] + seq!['.'] + join(labels.drop_first())
    }
}

/// The position of the first dot, or the length where there is none.
pub open spec fn first_dot(t: Seq<char>) -> int
    decreases t.len(),
{
    if t.len() == 0 || t[0] == '.' {
        0
    } else {
        1 + first_dot(t.drop_first())
    }
}

/// The text cut at each dot. A text without a dot is one piece, the empty
/// text too.
pub open spec fn pieces(t: Seq<char>) -> Seq<Seq<char>>
    decreases t.len(),
{
    let k = first_dot(t);
    if 0 <= k < t.len() {
        seq![t.take(k)] + pieces(t.skip(k + 1))
    } else {
        seq![t]
    }
}

/// The labels of a path's text: its pieces, and none for the empty text.
pub open spec fn split(t: Seq<char>) -> Seq<Seq<char>> {
    if t.len() == 0 {
        Seq::empty()
    } else {
        pieces(t)
    }
}

/// Where the first dot is: before it there is none, and it is a dot unless
/// the text ends first.
pub proof fn lemma_first_dot(t: Seq<char>)
    ensures
        0 <= first_dot(t) <= t.len(),
        forall|i: int| 0 <= i < first_dot(t) ==> t[i] != '.',
        first_dot(t) < t.len() ==> t[first_dot(t)] == '.',
    decreases t.len(),
{
    if t.len() == 0 || t[0] == '.' {
    } else {
        let rest = t.drop_first();
        lemma_first_dot(rest);
        assert forall|i: int| 0 <= i < first_dot(t) implies t[i] != '.' by {
            if i > 0 {
                assert(t[i] == rest[i - 1]);
            }
        }
        assert(first_dot(t) < t.len() ==> t[first_dot(t)] == rest[first_dot(rest)]);
    }
}

/// A position with no dot before it, which holds a dot or is the end, is the
/// first dot.
pub proof fn lemma_first_dot_is(t: Seq<char>, k: int)
    requires
        0 <= k <= t.len(),
        forall|i: int| 0 <= i < k ==> t[i] != '.',
        k < t.len() ==> t[k] == '.',
    ensures
        first_dot(t) == k,
{
    lemma_first_dot(t);
    let d = first_dot(t);
    if d < k {
        assert(t[d] == '.');
    } else if d > k {
        assert(t[k] != '.');
    }
}

/// Cutting a text at its dots and joining the pieces gives the text back.
pub proof fn lemma_join_pieces(t: Seq<char>)
    ensures
        pieces(t).len() >= 1,
        join(pieces(t)) == t,
    decreases t.len(),
{
    lemma_first_dot(t);
    let k = first_dot(t);
    if k < t.len() {
        let rest = t.skip(k + 1);
        lemma_join_pieces(rest);
        let ps = pieces(t);
        assert(ps.drop_first() =~= pieces(rest));
        assert(ps[0] == t.take(k));
        assert(t =~= t.take(k) + seq!['.'] + rest);
    } else {
        assert(pieces(t) == seq![t]);
    }
}

/// Joining labels gives a text whose pieces are those labels.
pub proof fn lemma_pieces_join(labels: Seq<Seq<char>>)
    requires
        labels.len() >= 1,
        all_labels(labels),
    ensures
        join(labels).len() >= 1,
        pieces(join(labels)) == labels,
    decreases labels.len(),
{
    let head = labels[0];
    assert(is_label(head));
    assert forall|i: int| 0 <= i < head.len() implies head[i] != '.' by {
        assert(is_label_char(head[i]));
    }
    let t = join(labels);
    if labels.len() == 1 {
        lemma_first_dot_is(t, t.len() as int);
        assert(pieces(t) =~= labels);
    } else {
        let tail = labels.drop_first();
        assert(all_labels(tail)) by {
            assert forall|i: int| 0 <= i < tail.len() implies is_label(#[trigger] tail[i]) by {
                assert(tail[i] == labels[i + 1]);
            }
        }
        lemma_pieces_join(tail);
        let k = head.len() as int;
        assert(t == head + seq!['.'] + join(tail));
        assert(t[k] == '.');
        assert forall|i: int| 0 <= i < k implies t[i] != '.' by {
            assert(t[i] == head[i]);
        }
        lemma_first_dot_is(t, k);
        assert(t.take(k) =~= head);
        assert(t.skip(k + 1) =~= join(tail));
        assert(pieces(t) =~= labels);
    }
}

/// Splitting the text that labels were joined to gives the labels back, and
/// that text is the text of a path.
pub proof fn lemma_split_join(labels: Seq<Seq<char>>)
    requires
        all_labels(labels),
    ensures
        split(join(labels)) == labels,
        is_path_text(join(labels)),
{
    if labels.len() == 0 {
        assert(split(join(labels)) =~= labels);
    } else {
        lemma_pieces_join(labels);
        lemma_path_text_iff_labels(join(labels));
    }
}

/// Joining the labels that a text was split into gives the text back.
pub proof fn lemma_join_split(t: Seq<char>)
    ensures
        join(split(t)) == t,
{
    if t.len() == 0 {
        assert(join(split(t)) =~= t);
    } else {
        lemma_join_pieces(t);
    }
}

/// A text is the text of a path exactly when each piece between its dots is a
/// label.
pub proof fn lemma_path_text_iff_labels(t: Seq<char>)
    ensures
        is_path_text(t) <==> all_labels(split(t)),
    decreases t.len(),
{
    lemma_first_dot(t);
    let k = first_dot(t);
    if t.len() == 0 {
    } else if k == t.len() {
        assert(pieces(t) == seq![t]);
        if is_path_text(t) {
            assert forall|i: int| 0 <= i < t.len() implies is_label_char(#[trigger] t[i]) by {}
            assert(is_label(t));
        }
        if all_labels(pieces(t)) {
            assert(is_label(pieces(t)[0]));
        }
    } else {
        let head = t.take(k);
        let rest = t.skip(k + 1);
        let ps = pieces(t);
        assert(ps == seq![head] + pieces(rest));
        lemma_path_text_iff_labels(rest);
        lemma_join_pieces(rest);
        if is_path_text(t) {
            assert(t[k] == '.');
            assert(is_label(head)) by {
                assert forall|i: int| 0 <= i < head.len() implies is_label_char(
                    #[trigger] head[i],
                ) by {
                    assert(head[i] == t[i]);
                }
            }
            assert(is_path_text(rest)) by {
                assert forall|i: int| 0 <= i < rest.len() implies is_label_char(
                    #[trigger] rest[i],
                ) || rest[i] == '.' by {
                    assert(rest[i] == t[i + k + 1]);
                }
                assert forall|i: int| 0 <= i < rest.len() && #[trigger] rest[i] == '.' implies 0
                    < i < rest.len() - 1 && rest[i - 1] != '.' && rest[i + 1] != '.' by {
                    assert(rest[i] == t[i + k + 1]);
                    assert(t[i + k + 1] == '.');
                    if i > 0 {
                        assert(rest[i - 1] == t[i + k]);
                    }
                    assert(rest[i + 1] == t[i + k + 2]);
                }
            }
            assert(rest.len() > 0);
            assert(all_labels(ps)) by {
                assert forall|i: int| 0 <= i < ps.len() implies is_label(#[trigger] ps[i]) by {
                    if i > 0 {
                        assert(ps[i] == pieces(rest)[i - 1]);
                    }
                }
            }
        }
        if all_labels(ps) {
            assert(is_label(ps[0]));
            assert(ps[0] == head);
            assert(all_labels(pieces(rest))) by {
                assert forall|i: int| 0 <= i < pieces(rest).len() implies is_label(
                    #[trigger] pieces(rest)[i],
                ) by {
                    assert(pieces(rest)[i] == ps[i + 1]);
                }
            }
            if rest.len() == 0 {
                assert(pieces(rest) =~= seq![rest]);
                assert(is_label(pieces(rest)[0]));
            }
            assert(is_path_text(rest));
            assert(is_path_text(t)) by {
                assert forall|i: int| 0 <= i < t.len() implies is_label_char(#[trigger] t[i])
                    || t[i] == '.' by {
                    if i < k {
                        assert(t[i] == head[i]);
                    } else if i > k {
                        assert(t[i] == rest[i - k - 1]);
                    }
                }
                assert forall|i: int| 0 <= i < t.len() && #[trigger] t[i] == '.' implies 0 < i
                    < t.len() - 1 && t[i - 1] != '.' && t[i + 1] != '.' by {
                    if i < k {
                        assert(t[i] == head[i]);
                        assert(is_label_char(head[i]));
                    } else if i == k {
                        assert(t[k - 1] == head[k - 1]);
                        assert(is_label_char(head[k - 1]));
                        assert(t[k + 1] == rest[0]);
                        assert(is_label_char(rest[0]) || rest[0] == '.');
                    } else {
                        let j = i - k - 1;
                        assert(t[i] == rest[j]);
                        assert(rest[j] == '.');
                        assert(0 < j < rest.len() - 1);
                        assert(t[i - 1] == rest[j - 1]);
                        assert(t[i + 1] == rest[j + 1]);
                    }
                }
            }
        }
    }
}

/// Joining one more label to the end puts a dot before it, unless it is the
/// first.
pub proof fn lemma_join_push(labels: Seq<Seq<char>>, label: Seq<char>)
    ensures
        join(labels.push(label)) == if labels.len() == 0 {
            label
        } else {
            join(labels) + seq!['.'] + label
        },
    decreases labels.len(),
{
    let all = labels.push(label);
    if labels.len() == 0 {
        assert(all[0] == label);
    } else {
        let tail = labels.drop_first();
        lemma_join_push(tail, label);
        assert(all.drop_first() =~= tail.push(label));
        assert(all[0] == labels[0]);
        if tail.len() == 0 {
            assert(join(labels) == labels[0]);
            assert(join(all) =~= join(labels) + seq!['.'] + label);
        } else {
            assert(join(all) =~= join(labels) + seq!['.'] + label);
        }
    }
}

} // verus!
