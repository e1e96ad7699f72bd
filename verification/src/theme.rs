//! Letter-spaced labels.

use vstd::prelude::*;

verus! {

/// The thin space put between letters.
pub const LETTER_SPACE: char = '\u{2009}';

/// `label` with a thin space between any two of its letters.
pub open spec fn spaced_text(label: Seq<char>) -> Seq<char>
    decreases label.len(),
{
    if label.len() <= 1 {
        label
    } else {
        spaced_text(label.drop_last()).push(LETTER_SPACE).push(label.last())
    }
}

/// Letter-spaces a short label by inserting thin spaces.
///
/// Only for headers of a few words; it would mangle anything longer.
pub fn spaced(label: &str) -> (out: String)
    ensures
        out@ == spaced_text(label@),
{
    let mut out = String::new();
    let n: usize = label.unicode_len();
    assert(label@.take(0) == Seq::<char>::empty());
    assert(out@ == Seq::<char>::empty());
    for i in 0..n
        invariant
            n == label@.len(),
            out@ == spaced_text(label@.take(i as int)),
    {
        let ghost so_far = label@.take(i as int);
        assert(label@.take(i + 1).drop_last() == so_far);
        if i > 0 {
            out.push(LETTER_SPACE);
        }
        out.push(label.get_char(i));
        assert(i == 0 ==> out@ == label@.take(1));
    }
    assert(label@.take(label@.len() as int) == label@);
    out
}

/// A spaced label keeps its letters, in order, at every other place.
pub proof fn lemma_spaced(label: Seq<char>)
    ensures
        spaced_text(label).len() == if label.len() == 0 {
            0
        } else {
            2 * label.len() - 1
        },
        forall|i: int|
            0 <= i < label.len() ==> spaced_text(label)[2 * i] == #[trigger] label[i],
        forall|j: int|
            0 <= j < spaced_text(label).len() && j % 2 == 1 ==> #[trigger] spaced_text(label)[j]
                == LETTER_SPACE,
    decreases label.len(),
{
    if label.len() > 1 {
        let less = label.drop_last();
        lemma_spaced(less);
        assert forall|i: int| 0 <= i < label.len() implies spaced_text(label)[2 * i]
            == #[trigger] label[i] by {
            if i < less.len() {
                assert(less[i] == label[i]);
            }
        }
        assert forall|j: int|
            0 <= j < spaced_text(label).len() && j % 2 == 1 implies #[trigger] spaced_text(
            label,
        )[j] == LETTER_SPACE by {
            let shorter = spaced_text(less);
            if j < shorter.len() {
                assert(spaced_text(label)[j] == shorter[j]);
            }
        }
    }
}

} // verus!
