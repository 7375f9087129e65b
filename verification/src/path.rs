//! Paths, as far as telling whether two name the same thing.
//!
//! Repeated separators, a separator at the end, and `.` between others say
//! nothing: `/dev/dri//card0` is `/dev/dri/./card0` is `/dev/dri/card0`. A
//! leading `.` and every `..` count.

use vstd::prelude::*;
use crate::text::{chars_of, law_separators_end_pieces, pieces, pieces_of, texts};

verus! {

/// Whether a path starts at the root.
pub open spec fn rooted(path: Seq<char>) -> bool {
    path.len() > 0 && path[0] == '/'
}

/// The pieces that count: neither empty nor `.`.
pub open spec fn counting(pieces: Seq<Seq<char>>) -> Seq<Seq<char>>
    decreases pieces.len(),
{
    if pieces.len() == 0 {
        Seq::empty()
    } else {
        let before = counting(pieces.drop_last());
        if pieces.last().len() == 0 || pieces.last() == seq!['.'] {
            before
        } else {
            before.push(pieces.last())
        }
    }
}

/// The components of a path. A path that does not start at the root keeps a `.`
/// it starts with.
pub open spec fn components_of(path: Seq<char>) -> Seq<Seq<char>> {
    let pieces = pieces_of(path, '/');
    if rooted(path) || pieces.len() == 0 {
        counting(pieces)
    } else {
        seq![pieces[0]] + counting(pieces.skip(1))
    }
}

/// Whether two paths are the same.
pub open spec fn same_path(a: Seq<char>, b: Seq<char>) -> bool {
    rooted(a) == rooted(b) && components_of(a) == components_of(b)
}

fn is_rooted(path: &str) -> (starts: bool)
    ensures
        starts == rooted(path@),
{
    let chars = chars_of(path);
    chars.len() > 0 && chars[0] == '/'
}

/// The components of a path.
pub fn components(path: &str) -> (out: Vec<String>)
    ensures
        texts(out@) == components_of(path@),
{
    let all = pieces(path, '/');
    let ghost meant = texts(all@);
    let mut out: Vec<String> = Vec::new();
    let mut i: usize = 0;
    let dot: String = ".".to_owned();
    proof {
        reveal_strlit(".");
        assert(dot@ =~= seq!['.']);
        assert(texts(out@) =~= Seq::empty());
    }
    let ghost mut start: int = 0;
    if !is_rooted(path) && all.len() > 0 {
        let first: String = all[0].clone();
        out.push(first);
        i = 1;
        proof {
            start = 1;
            assert(meant[0] == all@[0]@);
            assert(texts(out@) =~= seq![meant[0]]);
        }
    }
    let ghost head = texts(out@);
    let ghost rest = meant.skip(start);
    assert(head + counting(rest.take(0)) =~= head);
    while i < all.len()
        invariant
            dot@ == seq!['.'],
            0 <= start <= i <= all@.len(),
            meant == texts(all@),
            rest == meant.skip(start),
            texts(out@) == head + counting(rest.take(i - start)),
        decreases all@.len() - i,
    {
        let ghost before = out@;
        proof {
            assert(rest.take(i - start + 1).drop_last() =~= rest.take(i - start));
            assert(rest[i - start] == all@[i as int]@);
        }
        if !all[i].as_str().is_empty() && all[i] != dot {
            let piece: String = all[i].clone();
            out.push(piece);
            assert(texts(out@) =~= texts(before).push(piece@));
        }
        assert(texts(out@) =~= head + counting(rest.take(i - start + 1)));
        i += 1;
    }
    proof {
        assert(rest.take(i - start) =~= rest);
        assert(meant.skip(0) =~= meant);
        assert(texts(out@) =~= components_of(path@));
    }
    out
}

/// Whether two paths are the same.
pub fn is_same_path(a: &str, b: &str) -> (same: bool)
    ensures
        same == same_path(a@, b@),
{
    if is_rooted(a) != is_rooted(b) {
        return false;
    }
    let left = components(a);
    let right = components(b);
    if left.len() != right.len() {
        assert(texts(left@).len() != texts(right@).len());
        return false;
    }
    let mut i: usize = 0;
    while i < left.len()
        invariant
            0 <= i <= left@.len(),
            left@.len() == right@.len(),
            texts(left@) == components_of(a@),
            texts(right@) == components_of(b@),
            forall|j: int| 0 <= j < i ==> #[trigger] texts(left@)[j] == texts(right@)[j],
        decreases left@.len() - i,
    {
        assert(texts(left@)[i as int] == left@[i as int]@);
        assert(texts(right@)[i as int] == right@[i as int]@);
        if left[i] != right[i] {
            return false;
        }
        i += 1;
    }
    assert(texts(left@) =~= texts(right@));
    true
}

/// Being the same is an equivalence.
pub proof fn law_same_path_is_an_equivalence(a: Seq<char>, b: Seq<char>, c: Seq<char>)
    ensures
        same_path(a, a),
        same_path(a, b) == same_path(b, a),
        same_path(a, b) && same_path(b, c) ==> same_path(a, c),
{
}

proof fn lemma_counting_adds(a: Seq<Seq<char>>, b: Seq<Seq<char>>)
    ensures
        counting(a + b) == counting(a) + counting(b),
    decreases b.len(),
{
    if b.len() == 0 {
        assert(a + b =~= a);
        assert(counting(a) + counting(b) =~= counting(a));
    } else {
        assert((a + b).drop_last() =~= a + b.drop_last());
        lemma_counting_adds(a, b.drop_last());
        assert(counting(a + b) =~= counting(a) + counting(b));
    }
}

proof fn lemma_counting_one(piece: Seq<char>)
    ensures
        counting(seq![piece]) == if piece.len() == 0 || piece == seq!['.'] {
            Seq::<Seq<char>>::empty()
        } else {
            seq![piece]
        },
{
    let one = seq![piece];
    assert(one.drop_last() =~= Seq::<Seq<char>>::empty());
    assert(counting(one.drop_last()) =~= Seq::<Seq<char>>::empty());
    assert(one.last() == piece);
    assert(Seq::<Seq<char>>::empty().push(piece) =~= one);
}

proof fn lemma_pieces_add(x: Seq<char>, y: Seq<char>, separator: char)
    ensures
        pieces_of(x.push(separator) + y, separator) == pieces_of(x.push(separator), separator)
            + pieces_of(y, separator),
        pieces_of(x.push(separator), separator).len() > 0,
    decreases x.len(),
{
    let whole = x.push(separator);
    if forall|i: int| 0 <= i < x.len() ==> (#[trigger] x[i]) != separator {
        law_separators_end_pieces(x, separator, y);
        law_separators_end_pieces(x, separator, Seq::empty());
        assert(whole + Seq::empty() =~= whole);
        assert(seq![x] + pieces_of(Seq::empty(), separator) =~= seq![x]);
    } else {
        let n = first_place(x, separator);
        lemma_first_place(x, separator);
        let head = x.take(n);
        let tail = x.skip(n + 1);
        assert(x =~= head.push(separator) + tail);
        lemma_pieces_add(tail, y, separator);
        assert(whole + y =~= head.push(separator) + (tail.push(separator) + y));
        assert(whole =~= head.push(separator) + tail.push(separator));
        law_separators_end_pieces(head, separator, tail.push(separator) + y);
        law_separators_end_pieces(head, separator, tail.push(separator));
        assert(seq![head] + (pieces_of(tail.push(separator), separator) + pieces_of(y, separator))
            =~= (seq![head] + pieces_of(tail.push(separator), separator)) + pieces_of(
            y,
            separator,
        ));
    }
}

spec fn first_place(text: Seq<char>, c: char) -> int
    decreases text.len(),
{
    if text.len() == 0 || text[0] == c {
        0
    } else {
        1 + first_place(text.skip(1), c)
    }
}

proof fn lemma_first_place(text: Seq<char>, c: char)
    requires
        exists|i: int| 0 <= i < text.len() && (#[trigger] text[i]) == c,
    ensures
        0 <= first_place(text, c) < text.len(),
        text[first_place(text, c)] == c,
        forall|i: int| 0 <= i < first_place(text, c) ==> (#[trigger] text.take(
            first_place(text, c),
        )[i]) != c,
    decreases text.len(),
{
    if text[0] != c {
        let rest = text.skip(1);
        let k = choose|i: int| 0 <= i < text.len() && (#[trigger] text[i]) == c;
        assert(rest[k - 1] == c);
        lemma_first_place(rest, c);
        let n = first_place(rest, c);
        assert forall|i: int| 0 <= i < n + 1 implies (#[trigger] text.take(n + 1)[i]) != c by {
            if i > 0 {
                assert(rest.take(n)[i - 1] == text[i]);
            }
        }
    }
}

proof fn lemma_components_add(x: Seq<char>, y: Seq<char>)
    ensures
        components_of(x.push('/') + y) == components_of(x.push('/')) + counting(pieces_of(y, '/')),
        rooted(x.push('/') + y) == rooted(x.push('/')),
{
    let head = x.push('/');
    lemma_pieces_add(x, y, '/');
    let first = pieces_of(head, '/');
    let rest = pieces_of(y, '/');
    assert((head + y)[0] == head[0]);
    lemma_counting_adds(first, rest);
    lemma_counting_adds(first.skip(1), rest);
    assert((first + rest).skip(1) =~= first.skip(1) + rest);
    assert((first + rest)[0] == first[0]);
    assert(components_of(head + y) =~= components_of(head) + counting(rest));
}

/// A separator said twice, a `.` between separators, and a separator at the end
/// say nothing.
pub proof fn law_idle_separators_say_nothing(x: Seq<char>, y: Seq<char>)
    ensures
        same_path(x.push('/') + (seq!['/'] + y), x.push('/') + y),
        same_path(x.push('/') + (seq!['.', '/'] + y), x.push('/') + y),
        same_path(x.push('/').push('/'), x.push('/')),
{
    law_separators_end_pieces(Seq::empty(), '/', y);
    law_separators_end_pieces(seq!['.'], '/', y);
    let nothing: Seq<char> = Seq::empty();
    assert(nothing.push('/') + y =~= seq!['/'] + y);
    assert(seq!['.'].push('/') + y =~= seq!['.', '/'] + y);
    lemma_components_add(x, seq!['/'] + y);
    lemma_components_add(x, seq!['.', '/'] + y);
    lemma_components_add(x, y);
    let rest = pieces_of(y, '/');
    lemma_counting_adds(seq![nothing], rest);
    lemma_counting_adds(seq![seq!['.']], rest);
    lemma_counting_one(nothing);
    lemma_counting_one(seq!['.']);
    assert(counting(seq![nothing]) + counting(rest) =~= counting(rest));
    assert(counting(seq![seq!['.']]) + counting(rest) =~= counting(rest));
    lemma_components_add(x, seq!['/']);
    lemma_components_add(x, nothing);
    law_separators_end_pieces(nothing, '/', nothing);
    assert(nothing.push('/') + nothing =~= seq!['/']);
    assert(seq![nothing] + pieces_of(nothing, '/') =~= seq![nothing]);
    assert(x.push('/') + seq!['/'] =~= x.push('/').push('/'));
    assert(x.push('/') + nothing =~= x.push('/'));
    assert(counting(pieces_of(nothing, '/')) =~= Seq::empty());
}

/// A last component counts: two paths that end in components are the same exactly
/// where what stands before is and the components are.
pub proof fn law_a_component_counts(x: Seq<char>, c: Seq<char>, y: Seq<char>, d: Seq<char>)
    requires
        c.len() > 0,
        d.len() > 0,
        c != seq!['.'],
        d != seq!['.'],
        forall|i: int| 0 <= i < c.len() ==> (#[trigger] c[i]) != '/',
        forall|i: int| 0 <= i < d.len() ==> (#[trigger] d[i]) != '/',
    ensures
        same_path(x.push('/') + c, y.push('/') + d) <==> same_path(x.push('/'), y.push('/')) && c
            == d,
{
    law_separators_end_pieces(c, '/', Seq::empty());
    law_separators_end_pieces(d, '/', Seq::empty());
    lemma_components_add(x, c);
    lemma_components_add(y, d);
    lemma_counting_one(c);
    lemma_counting_one(d);
    let left = components_of(x.push('/'));
    let right = components_of(y.push('/'));
    if left + seq![c] == right + seq![d] {
        assert((left + seq![c]).last() == c);
        assert((right + seq![d]).last() == d);
        assert((left + seq![c]).drop_last() =~= left);
        assert((right + seq![d]).drop_last() =~= right);
    }
}

/// A path from the root is never one that is not, and a name without separators
/// is only itself.
pub proof fn law_a_bare_name_is_only_itself(a: Seq<char>, b: Seq<char>)
    ensures
        a.len() > 0 && b.len() > 0 && (a[0] == '/') != (b[0] == '/') ==> !same_path(a, b),
        a.len() > 0 && b.len() > 0 && (forall|i: int| 0 <= i < a.len() ==> (#[trigger] a[i]) != '/')
            && (forall|i: int| 0 <= i < b.len() ==> (#[trigger] b[i]) != '/') ==> (same_path(a, b)
            <==> a == b),
{
    if a.len() > 0 && b.len() > 0 && (forall|i: int|
        0 <= i < a.len() ==> (#[trigger] a[i]) != '/') && (forall|i: int|
        0 <= i < b.len() ==> (#[trigger] b[i]) != '/') {
        law_separators_end_pieces(a, '/', Seq::empty());
        law_separators_end_pieces(b, '/', Seq::empty());
        assert(a[0] != '/' && b[0] != '/');
        assert(seq![a].skip(1) =~= Seq::empty());
        assert(seq![b].skip(1) =~= Seq::empty());
        assert(components_of(a) =~= seq![a]);
        assert(components_of(b) =~= seq![b]);
        if a != b {
            assert(seq![a][0] != seq![b][0]);
        }
    }
}

} // verus!
