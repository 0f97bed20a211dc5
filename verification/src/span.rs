use vstd::prelude::*;

verus! {

/// Whether `s` holds the elements of `part`, in order, from index `at` on.
pub open spec fn holds<T>(s: Seq<T>, at: int, part: Seq<T>) -> bool {
    &&& 0 <= at
    &&& at + part.len() <= s.len()
    &&& s.subrange(at, at + part.len()) == part
}

/// A sequence that holds two parts one after the other holds each of them.
pub(crate) proof fn lemma_holds_split<T>(s: Seq<T>, at: int, first: Seq<T>, second: Seq<T>)
    requires
        holds(s, at, first + second),
    ensures
        holds(s, at, first),
        holds(s, at + first.len(), second),
{
    let both = first + second;
    assert(s.subrange(at, at + first.len()) =~= first) by {
        assert forall|i: int| 0 <= i < first.len() implies s.subrange(at, at + first.len())[i]
            == first[i] by {
            assert(s.subrange(at, at + both.len())[i] == both[i]);
        }
    }
    assert(s.subrange(at + first.len(), at + first.len() + second.len()) =~= second) by {
        assert forall|i: int| 0 <= i < second.len() implies s.subrange(
            at + first.len(),
            at + first.len() + second.len(),
        )[i] == second[i] by {
            assert(s.subrange(at, at + both.len())[first.len() + i] == both[first.len() + i]);
        }
    }
}

/// A sequence that holds two parts one after the other holds both as one.
pub(crate) proof fn lemma_holds_join<T>(s: Seq<T>, at: int, first: Seq<T>, second: Seq<T>)
    requires
        holds(s, at, first),
        holds(s, at + first.len(), second),
    ensures
        holds(s, at, first + second),
{
    let both = first + second;
    assert(s.subrange(at, at + both.len()) =~= both) by {
        assert forall|i: int| 0 <= i < both.len() implies s.subrange(at, at + both.len())[i]
            == both[i] by {
            if i < first.len() {
                assert(s.subrange(at, at + first.len())[i] == first[i]);
            } else {
                assert(s.subrange(at + first.len(), at + first.len() + second.len())[i
                    - first.len()] == second[i - first.len()]);
            }
        }
    }
}

/// The element that a held part has at index `i` stands at index `at + i`.
pub(crate) proof fn lemma_holds_index<T>(s: Seq<T>, at: int, part: Seq<T>, i: int)
    requires
        holds(s, at, part),
        0 <= i < part.len(),
    ensures
        s[at + i] == part[i],
{
    assert(s.subrange(at, at + part.len())[i] == part[i]);
}

/// A sequence holds each of its elements where it stands.
pub(crate) proof fn lemma_holds_one<T>(s: Seq<T>, at: int)
    requires
        0 <= at < s.len(),
    ensures
        holds(s, at, seq![s[at]]),
{
    assert(s.subrange(at, at + 1) =~= seq![s[at]]);
}

/// A part held by a prefix of a sequence is held by the sequence.
pub(crate) proof fn lemma_holds_extend<T>(s: Seq<T>, more: Seq<T>, at: int, part: Seq<T>)
    requires
        holds(s, at, part),
    ensures
        holds(s + more, at, part),
{
    assert((s + more).subrange(at, at + part.len()) =~= s.subrange(at, at + part.len()));
}

/// A sequence holds its own end.
pub(crate) proof fn lemma_holds_end<T>(s: Seq<T>, part: Seq<T>)
    ensures
        holds(s + part, s.len() as int, part),
{
    assert((s + part).subrange(s.len() as int, (s.len() + part.len()) as int) =~= part);
}

/// What a held part holds, the sequence holds.
pub(crate) proof fn lemma_holds_within<T>(s: Seq<T>, at: int, part: Seq<T>, inner: int, piece: Seq<T>)
    requires
        holds(s, at, part),
        holds(part, inner, piece),
    ensures
        holds(s, at + inner, piece),
{
    assert(s.subrange(at + inner, at + inner + piece.len()) =~= piece) by {
        assert forall|i: int| 0 <= i < piece.len() implies s.subrange(
            at + inner,
            at + inner + piece.len(),
        )[i] == piece[i] by {
            assert(part.subrange(inner, inner + piece.len())[i] == piece[i]);
            assert(s.subrange(at, at + part.len())[inner + i] == part[inner + i]);
        }
    }
}

} // verus!
