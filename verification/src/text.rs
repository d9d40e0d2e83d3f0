//! Text as sequences of characters: searching, cutting and comparing.
use vstd::prelude::*;
use vstd::slice::slice_subrange;

verus! {

/// The index of the first `c` in `s`, or the length of `s` where there is none.
pub open spec fn first_index(s: Seq<char>, c: char) -> int
    decreases s.len(),
{
    if s.len() == 0 || s[0] == c {
        0
    } else {
        1 + first_index(s.skip(1), c)
    }
}

/// The pieces of `s` between the occurrences of `c`: one more than there are
/// occurrences, each of them free of `c`.
pub open spec fn split(s: Seq<char>, c: char) -> Seq<Seq<char>>
    decreases s.len(),
{
    let i = first_index(s, c);
    if 0 <= i < s.len() {
        seq![s.take(i)] + split(s.skip(i + 1), c)
    } else {
        seq![s]
    }
}

/// The pieces put together, one `c` between each two.
pub open spec fn join(pieces: Seq<Seq<char>>, c: char) -> Seq<char>
    decreases pieces.len(),
{
    if pieces.len() == 0 {
        seq![]
    } else if pieces.len() == 1 {
        pieces[0]
    } else {
        pieces[0] + seq![c] + join(pieces.skip(1), c)
    }
}

/// Whether `a` comes no later than `b` in the order of a dictionary whose
/// alphabet is the Unicode scalar values. Text ordered by its UTF-8 bytes is
/// ordered like this.
pub open spec fn dictionary_le(a: Seq<char>, b: Seq<char>) -> bool
    decreases a.len(),
{
    if a.len() == 0 {
        true
    } else if b.len() == 0 {
        false
    } else if a[0] != b[0] {
        a[0] < b[0]
    } else {
        dictionary_le(a.skip(1), b.skip(1))
    }
}

/// The first index is within bounds, holds the character unless it is the
/// length, and nothing before it does.
pub proof fn lemma_first_index(s: Seq<char>, c: char)
    ensures
        0 <= first_index(s, c) <= s.len(),
        first_index(s, c) < s.len() ==> s[first_index(s, c)] == c,
        forall|j: int| 0 <= j < first_index(s, c) ==> s[j] != c,
        first_index(s, c) < s.len() <==> s.contains(c),
    decreases s.len(),
{
    if s.len() > 0 && s[0] != c {
        let t = s.skip(1);
        lemma_first_index(t, c);
        assert forall|j: int| 0 <= j < first_index(s, c) implies s[j] != c by {
            if j > 0 {
                assert(t[j - 1] == s[j]);
            }
        }
        if s.contains(c) {
            let k = choose|k: int| 0 <= k < s.len() && s[k] == c;
            assert(t[k - 1] == c);
        }
        if first_index(s, c) < s.len() {
            assert(s[first_index(s, c)] == t[first_index(t, c)]);
        }
    }
}

/// Only one index is the first.
pub proof fn lemma_first_index_is(s: Seq<char>, c: char, i: int)
    requires
        0 <= i <= s.len(),
        forall|j: int| 0 <= j < i ==> s[j] != c,
        i < s.len() ==> s[i] == c,
    ensures
        first_index(s, c) == i,
{
    lemma_first_index(s, c);
    let k = first_index(s, c);
    if k < i {
        assert(s[k] != c);
    } else if i < k {
        assert(s[i] != c);
    }
}

/// There is always a first piece.
pub proof fn lemma_split_nonempty(s: Seq<char>, c: char)
    ensures
        split(s, c).len() > 0,
{
}

/// Cutting after the first occurrence.
pub proof fn lemma_split_once(head: Seq<char>, c: char, tail: Seq<char>)
    requires
        !head.contains(c),
    ensures
        first_index(head + seq![c] + tail, c) == head.len(),
        split(head + seq![c] + tail, c) == seq![head] + split(tail, c),
{
    let s = head + seq![c] + tail;
    assert forall|j: int| 0 <= j < head.len() implies s[j] != c by {
        assert(s[j] == head[j]);
        assert(head.contains(head[j]));
    }
    assert(s[head.len() as int] == c);
    lemma_first_index_is(s, c, head.len() as int);
    assert(s.take(head.len() as int) =~= head);
    assert(s.skip(head.len() as int + 1) =~= tail);
}

/// Splitting undoes joining.
pub proof fn lemma_split_join(pieces: Seq<Seq<char>>, c: char)
    requires
        pieces.len() > 0,
        forall|k: int| 0 <= k < pieces.len() ==> !(#[trigger] pieces[k]).contains(c),
    ensures
        split(join(pieces, c), c) == pieces,
    decreases pieces.len(),
{
    let s = join(pieces, c);
    if pieces.len() == 1 {
        lemma_first_index(s, c);
        assert(split(s, c) =~= pieces);
    } else {
        let rest = pieces.skip(1);
        assert forall|k: int| 0 <= k < rest.len() implies !(#[trigger] rest[k]).contains(c) by {
            assert(rest[k] == pieces[k + 1]);
        }
        lemma_split_join(rest, c);
        lemma_split_once(pieces[0], c, join(rest, c));
        assert(split(s, c) =~= pieces);
    }
}

/// What holds of every character of every piece, and of the character between
/// them, holds of every character of the whole.
pub proof fn lemma_split_covers(s: Seq<char>, c: char, ok: spec_fn(char) -> bool)
    requires
        ok(c),
        forall|k: int, i: int|
            0 <= k < split(s, c).len() && 0 <= i < split(s, c)[k].len() ==> ok(
                #[trigger] split(s, c)[k][i],
            ),
    ensures
        forall|i: int| 0 <= i < s.len() ==> ok(#[trigger] s[i]),
    decreases s.len(),
{
    let p = split(s, c);
    let n = first_index(s, c);
    lemma_first_index(s, c);
    if n < s.len() {
        let t = s.skip(n + 1);
        let q = split(t, c);
        assert forall|k: int, i: int| 0 <= k < q.len() && 0 <= i < q[k].len() implies ok(
            #[trigger] q[k][i],
        ) by {
            assert(p[k + 1] == q[k]);
            assert(ok(p[k + 1][i]));
        }
        lemma_split_covers(t, c, ok);
        assert forall|i: int| 0 <= i < s.len() implies ok(#[trigger] s[i]) by {
            if i < n {
                assert(p[0] == s.take(n));
                assert(ok(p[0][i]));
            } else if i > n {
                assert(t[i - n - 1] == s[i]);
            }
        }
    } else {
        assert(p[0] == s);
        assert forall|i: int| 0 <= i < s.len() implies ok(#[trigger] s[i]) by {
            assert(ok(p[0][i]));
        }
    }
}

/// Of two texts one comes no later than the other.
pub proof fn lemma_dictionary_total(a: Seq<char>, b: Seq<char>)
    ensures
        dictionary_le(a, b) || dictionary_le(b, a),
    decreases a.len(),
{
    if a.len() > 0 && b.len() > 0 && a[0] == b[0] {
        lemma_dictionary_total(a.skip(1), b.skip(1));
    }
}

/// The dictionary order carries over from one step to the next.
pub proof fn lemma_dictionary_transitive(a: Seq<char>, b: Seq<char>, c: Seq<char>)
    requires
        dictionary_le(a, b),
        dictionary_le(b, c),
    ensures
        dictionary_le(a, c),
    decreases a.len(),
{
    if a.len() > 0 && b.len() > 0 && c.len() > 0 && a[0] == b[0] && b[0] == c[0] {
        lemma_dictionary_transitive(a.skip(1), b.skip(1), c.skip(1));
    }
}

/// Texts that come no later than each other are the same.
pub proof fn lemma_dictionary_antisymmetric(a: Seq<char>, b: Seq<char>)
    requires
        dictionary_le(a, b),
        dictionary_le(b, a),
    ensures
        a == b,
    decreases a.len(),
{
    if a.len() == 0 || b.len() == 0 {
        assert(a =~= b);
    } else {
        lemma_dictionary_antisymmetric(a.skip(1), b.skip(1));
        assert(a =~= seq![a[0]] + a.skip(1));
        assert(b =~= seq![b[0]] + b.skip(1));
    }
}

/// The characters of a string.
pub fn chars_of(s: &str) -> (out: Vec<char>)
    ensures
        out@ == s@,
{
    let mut out: Vec<char> = Vec::new();
    for c in it: s.chars()
        invariant
            it.seq() == s@,
            out@ == s@.take(it.index() as int),
    {
        out.push(c);
        assert(s@.take(it.index() as int + 1) =~= s@.take(it.index() as int).push(c));
    }
    assert(s@.take(s@.len() as int) =~= s@);
    out
}

/// Whether two runs of characters are the same.
pub fn same_chars(a: &[char], b: &[char]) -> (same: bool)
    ensures
        same == (a@ == b@),
{
    if a.len() != b.len() {
        return false;
    }
    let n: usize = a.len();
    let mut i: usize = 0;
    while i < n
        invariant
            i <= n,
            n == a@.len(),
            n == b@.len(),
            forall|j: int| 0 <= j < i ==> a@[j] == b@[j],
        decreases n - i,
    {
        if a[i] != b[i] {
            return false;
        }
        i += 1;
    }
    assert(a@ =~= b@);
    true
}

/// Whether two strings are the same.
pub fn same_text(a: &str, b: &str) -> (same: bool)
    ensures
        same == (a@ == b@),
{
    same_chars(chars_of(a).as_slice(), chars_of(b).as_slice())
}

/// What follows `prefix` in `s`, where `s` begins with it.
pub fn strip_prefix<'a>(s: &'a str, prefix: &str) -> (rest: Option<&'a str>)
    ensures
        rest is Some <==> prefix@.is_prefix_of(s@),
        rest matches Some(r) ==> r@ == s@.skip(prefix@.len() as int),
{
    let text = chars_of(s);
    let start = chars_of(prefix);
    if start.len() > text.len() {
        return None;
    }
    let n: usize = start.len();
    if same_chars(slice_subrange(text.as_slice(), 0, n), start.as_slice()) {
        let rest = s.substring_char(n, text.len());
        assert(rest@ =~= s@.skip(prefix@.len() as int));
        Some(rest)
    } else {
        None
    }
}

/// Finds the first `c`.
pub fn find(s: &[char], c: char) -> (i: usize)
    ensures
        i == first_index(s@, c),
        i <= s@.len(),
{
    let n: usize = s.len();
    let mut i: usize = 0;
    while i < n && s[i] != c
        invariant
            i <= n,
            n == s@.len(),
            forall|j: int| 0 <= j < i ==> s@[j] != c,
        decreases n - i,
    {
        i += 1;
    }
    proof {
        lemma_first_index_is(s@, c, i as int);
    }
    i
}

/// Cuts at every `c`.
pub fn pieces<'a>(s: &'a [char], c: char) -> (out: Vec<&'a [char]>)
    ensures
        out@.len() == split(s@, c).len(),
        forall|k: int| 0 <= k < out@.len() ==> (#[trigger] out@[k])@ == split(s@, c)[k],
{
    let mut out: Vec<&'a [char]> = Vec::new();
    let mut rest: &'a [char] = s;
    loop
        invariant
            out@.len() + split(rest@, c).len() == split(s@, c).len(),
            forall|k: int| 0 <= k < out@.len() ==> (#[trigger] out@[k])@ == split(s@, c)[k],
            forall|k: int|
                0 <= k < split(rest@, c).len() ==> #[trigger] split(rest@, c)[k] == split(
                    s@,
                    c,
                )[out@.len() + k],
        decreases rest@.len(),
    {
        let n: usize = rest.len();
        let i: usize = find(rest, c);
        let ghost whole = split(rest@, c);
        if i == n {
            assert(whole[0] == rest@);
            out.push(rest);
            return out;
        }
        let piece = slice_subrange(rest, 0, i);
        let tail = slice_subrange(rest, i + 1, n);
        assert(piece@ =~= rest@.take(i as int));
        assert(tail@ =~= rest@.skip(i + 1));
        assert(whole == seq![piece@] + split(tail@, c));
        assert(whole[0] == piece@);
        out.push(piece);
        rest = tail;
        assert forall|k: int| 0 <= k < split(rest@, c).len() implies #[trigger] split(rest@, c)[k]
            == split(s@, c)[out@.len() + k] by {
            assert(whole[k + 1] == split(rest@, c)[k]);
        }
    }
}

/// Whether `a` comes no later than `b` in dictionary order.
pub fn in_dictionary_order(a: &[char], b: &[char]) -> (le: bool)
    ensures
        le == dictionary_le(a@, b@),
{
    let n: usize = a.len();
    let m: usize = b.len();
    let mut i: usize = 0;
    assert(a@.skip(0) =~= a@);
    assert(b@.skip(0) =~= b@);
    while i < n
        invariant
            i <= n,
            i <= m,
            n == a@.len(),
            m == b@.len(),
            dictionary_le(a@, b@) == dictionary_le(a@.skip(i as int), b@.skip(i as int)),
        decreases n - i,
    {
        if i == m {
            return false;
        }
        if a[i] != b[i] {
            return a[i] < b[i];
        }
        assert(a@.skip(i as int).skip(1) =~= a@.skip(i + 1));
        assert(b@.skip(i as int).skip(1) =~= b@.skip(i + 1));
        i += 1;
    }
    true
}

/// Pieces that are free of a character and give a text when joined by it are
/// the pieces of that text, and its pieces are such.
pub proof fn splitting_undoes_joining(s: Seq<char>, c: char, p: Seq<Seq<char>>)
    ensures
        split(s, c) == p <==> {
            &&& p.len() > 0
            &&& join(p, c) == s
            &&& forall|k: int| 0 <= k < p.len() ==> !(#[trigger] p[k]).contains(c)
        },
{
    if p.len() > 0 && join(p, c) == s && (forall|k: int|
        0 <= k < p.len() ==> !(#[trigger] p[k]).contains(c)) {
        lemma_split_join(p, c);
    }
    lemma_split_pieces(s, c);
}

proof fn lemma_split_pieces(s: Seq<char>, c: char)
    ensures
        split(s, c).len() > 0,
        join(split(s, c), c) == s,
        forall|k: int| 0 <= k < split(s, c).len() ==> !(#[trigger] split(s, c)[k]).contains(c),
    decreases s.len(),
{
    let p = split(s, c);
    let n = first_index(s, c);
    lemma_first_index(s, c);
    if n < s.len() {
        let t = s.skip(n + 1);
        let q = split(t, c);
        lemma_split_pieces(t, c);
        assert(p == seq![s.take(n)] + q);
        assert(p.skip(1) =~= q);
        assert(s =~= s.take(n) + seq![c] + t);
        assert forall|k: int| 0 <= k < p.len() implies !(#[trigger] p[k]).contains(c) by {
            if k == 0 {
                assert(p[0] == s.take(n));
                assert forall|j: int| 0 <= j < n implies p[0][j] != c by {
                    assert(p[0][j] == s[j]);
                }
            } else {
                assert(p[k] == q[k - 1]);
            }
        }
    }
}

/// One piece is its own text, and joining two runs of pieces puts the
/// character between their texts.
pub proof fn joining_goes_piece_by_piece(
    one: Seq<char>,
    p: Seq<Seq<char>>,
    q: Seq<Seq<char>>,
    c: char,
)
    ensures
        join(seq![one], c) == one,
        p.len() > 0 && q.len() > 0 ==> join(p + q, c) == join(p, c) + seq![c] + join(q, c),
    decreases p.len(),
{
    if p.len() > 0 && q.len() > 0 {
        let all = p + q;
        assert(all[0] == p[0]);
        if p.len() == 1 {
            assert(all.skip(1) =~= q);
        } else {
            joining_goes_piece_by_piece(one, p.skip(1), q, c);
            assert(all.skip(1) =~= p.skip(1) + q);
            assert(join(all, c) =~= join(p, c) + seq![c] + join(q, c));
        }
    }
}

/// The first character in which two texts differ decides their order, and a
/// text comes before every longer one that begins with it.
pub proof fn the_first_difference_decides(
    common: Seq<char>,
    a: char,
    b: char,
    x: Seq<char>,
    y: Seq<char>,
)
    ensures
        a != b ==> (dictionary_le(common + seq![a] + x, common + seq![b] + y) <==> a < b),
        dictionary_le(common, common + x),
        x.len() > 0 ==> !dictionary_le(common + x, common),
    decreases common.len(),
{
    let s = common + seq![a] + x;
    let t = common + seq![b] + y;
    if common.len() == 0 {
        assert(s[0] == a && t[0] == b);
    } else {
        let rest = common.skip(1);
        the_first_difference_decides(rest, a, b, x, y);
        assert(s.skip(1) =~= rest + seq![a] + x);
        assert(t.skip(1) =~= rest + seq![b] + y);
        assert(s[0] == t[0]);
        assert((common + x).skip(1) =~= rest + x);
        assert((common + x)[0] == common[0]);
    }
}

} // verus!
