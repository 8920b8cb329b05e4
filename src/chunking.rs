use vstd::prelude::*;
use vstd::string::*;

verus! {

/// Concatenation of a sequence of text pieces, in order.
pub open spec fn join_all(pieces: Seq<Seq<char>>) -> Seq<char>
    decreases pieces.len(),
{
    if pieces.len() == 0 {
        Seq::empty()
    } else {
        join_all(pieces.drop_last()) + pieces.last()
    }
}

/// The `i`-th piece of `text` cut into pieces of `max_len` characters.
pub open spec fn piece(text: Seq<char>, max_len: nat, i: int) -> Seq<char> {
    let start = i * max_len;
    let end = if start + max_len <= text.len() { start + max_len } else { text.len() as int };
    text.subrange(start, end)
}

/// How many pieces of at most `max_len` characters `text` is cut into.
pub open spec fn piece_count(text: Seq<char>, max_len: nat) -> nat
    recommends
        max_len > 0,
{
    if max_len == 0 {
        0
    } else {
        ((text.len() + max_len - 1) / max_len as int) as nat
    }
}

/// The pieces of `text`, each `max_len` characters long but the last.
pub open spec fn pieces_of(text: Seq<char>, max_len: nat) -> Seq<Seq<char>> {
    Seq::new(piece_count(text, max_len), |i: int| piece(text, max_len, i))
}

/// The texts of a sequence of strings.
pub open spec fn views_of(v: Seq<String>) -> Seq<Seq<char>> {
    v.map_values(|s: String| s@)
}

/// Joining one more piece appends it to the joined text.
pub proof fn lemma_join_push(pieces: Seq<Seq<char>>, p: Seq<char>)
    ensures
        join_all(pieces.push(p)) == join_all(pieces) + p,
{
    assert(pieces.push(p).drop_last() =~= pieces);
}

proof fn lemma_join_prefix(text: Seq<char>, max_len: nat, k: nat)
    requires
        max_len > 0,
        k * max_len <= text.len(),
    ensures
        join_all(Seq::new(k, |i: int| piece(text, max_len, i))) == text.subrange(0, k * max_len as int),
    decreases k,
{
    let s = Seq::new(k, |i: int| piece(text, max_len, i));
    if k == 0 {
        assert(s.len() == 0);
        assert(k * max_len == 0) by (nonlinear_arith) requires k == 0;
        assert(text.subrange(0, 0) =~= Seq::<char>::empty());
        assert(join_all(s) == text.subrange(0, k * max_len as int));
    } else {
        let k1 = (k - 1) as nat;
        assert(k1 * max_len + max_len == k * max_len) by (nonlinear_arith)
            requires k1 == k - 1;
        lemma_join_prefix(text, max_len, k1);
        let s1 = Seq::new(k1, |i: int| piece(text, max_len, i));
        assert(s.drop_last() =~= s1);
        assert(s.last() == piece(text, max_len, k1 as int));
        assert(piece(text, max_len, k1 as int) == text.subrange(k1 * max_len as int, k * max_len as int));
        assert(text.subrange(0, k * max_len as int) =~= text.subrange(0, k1 * max_len as int)
            + piece(text, max_len, k1 as int));
        assert(join_all(s) == join_all(s1) + piece(text, max_len, k1 as int));
        assert(join_all(s1) == text.subrange(0, k1 * max_len as int));
        assert(join_all(s) == text.subrange(0, k * max_len as int));
    }
}

/// Joining two runs of pieces one after the other joins their texts.
pub proof fn lemma_join_concat(a: Seq<Seq<char>>, b: Seq<Seq<char>>)
    ensures
        join_all(a + b) == join_all(a) + join_all(b),
    decreases b.len(),
{
    if b.len() == 0 {
        assert(a + b =~= a);
        assert(join_all(a) + join_all(b) =~= join_all(a));
    } else {
        lemma_join_concat(a, b.drop_last());
        assert((a + b).drop_last() =~= a + b.drop_last());
        assert(join_all(a) + join_all(b) =~= join_all(a) + join_all(b.drop_last()) + b.last());
    }
}

/// Joined nonempty pieces are at least as long as the number of pieces.
pub proof fn lemma_join_len(a: Seq<Seq<char>>)
    requires
        forall|i: int| 0 <= i < a.len() ==> (#[trigger] a[i]).len() > 0,
    ensures
        join_all(a).len() >= a.len(),
    decreases a.len(),
{
    if a.len() > 0 {
        assert(a[a.len() - 1].len() > 0);
        lemma_join_len(a.drop_last());
    }
}

/// Cutting text into pieces and joining them again gives the text back.
pub proof fn lemma_pieces_join(text: Seq<char>, max_len: nat)
    requires
        max_len > 0,
    ensures
        join_all(pieces_of(text, max_len)) == text,
        forall|i: int| 0 <= i < pieces_of(text, max_len).len() ==>
            0 < (#[trigger] pieces_of(text, max_len)[i]).len() <= max_len,
{
    let n = text.len();
    let c = piece_count(text, max_len);
    let q = n / max_len;
    let r = n % max_len;
    assert(n == q * max_len + r) by (nonlinear_arith)
        requires q == n / max_len, r == n % max_len, max_len > 0;
    lemma_join_prefix(text, max_len, q);
    if r == 0 {
        assert(c == q) by (nonlinear_arith)
            requires c == (n + max_len - 1) / max_len as int, n == q * max_len, max_len > 0;
        assert(pieces_of(text, max_len) =~= Seq::new(q, |i: int| piece(text, max_len, i)));
        assert(text.subrange(0, n as int) =~= text);
    } else {
        assert(c == q + 1) by (nonlinear_arith)
            requires c == (n + max_len - 1) / max_len as int, n == q * max_len + r, 0 < r < max_len;
        let s = pieces_of(text, max_len);
        assert(s.drop_last() =~= Seq::new(q, |i: int| piece(text, max_len, i)));
        assert(text =~= text.subrange(0, q * max_len as int) + piece(text, max_len, q as int));
    }
    assert forall|i: int| 0 <= i < pieces_of(text, max_len).len() implies
        0 < (#[trigger] pieces_of(text, max_len)[i]).len() <= max_len by {
        assert(i * max_len < n) by (nonlinear_arith)
            requires 0 <= i < c, c == (n + max_len - 1) / max_len as int, max_len > 0;
        assert(i * max_len >= 0) by (nonlinear_arith)
            requires 0 <= i, max_len > 0;
    }
}

/// Cuts `text` into pieces of at most `max_len` characters, in order.
/// Every piece but the last holds exactly `max_len` characters; a piece never
/// ends inside a character, since the cut counts characters, not bytes.
pub fn chunk(text: &str, max_len: usize) -> (r: Vec<String>)
    requires
        max_len > 0,
    ensures
        views_of(r@) == pieces_of(text@, max_len as nat),
        join_all(views_of(r@)) == text@,
        forall|i: int| 0 <= i < r@.len() ==> 0 < (#[trigger] r@[i])@.len() <= max_len,
{
    let n = text.unicode_len();
    let mut out: Vec<String> = Vec::new();
    let mut start: usize = 0;
    let ghost l = max_len as nat;
    let ghost c = piece_count(text@, l);
    proof {
        assert(0 * l == 0) by (nonlinear_arith);
        if n > 0 {
            assert(c > 0) by (nonlinear_arith)
                requires c == (n + l - 1) / l as int, n > 0, l > 0;
        } else {
            assert(c == 0) by (nonlinear_arith)
                requires c == (n + l - 1) / l as int, n == 0, l > 0;
        }
    }
    while start < n
        invariant
            n == text@.len(),
            max_len > 0,
            l == max_len,
            c == piece_count(text@, l),
            start <= n,
            start < n ==> start == out@.len() * l && out@.len() < c,
            start >= n ==> out@.len() == c,
            forall|i: int| 0 <= i < out@.len() ==> (#[trigger] out@[i])@ == piece(text@, l, i),
        decreases n - start,
    {
        let end: usize = if max_len <= n - start { start + max_len } else { n };
        let part = text.substring_char(start, end);
        let ghost k = out@.len();
        proof {
            assert(k * l + l == (k + 1) * l) by (nonlinear_arith);
        }
        out.push(String::from_str(part));
        start = end;
        proof {
            if start < n {
                assert(k + 1 < c) by (nonlinear_arith)
                    requires start == (k + 1) * l, start < n, c == (n + l - 1) / l as int, l > 0;
            } else {
                assert(k + 1 >= c) by (nonlinear_arith)
                    requires k * l < n, n <= (k + 1) * l, c == (n + l - 1) / l as int, l > 0;
            }
        }
    }
    proof {
        assert(views_of(out@) =~= pieces_of(text@, l));
        lemma_pieces_join(text@, l);
        assert forall|i: int| 0 <= i < out@.len() implies 0 < (#[trigger] out@[i])@.len() <= max_len by {
            assert(views_of(out@)[i] == out@[i]@);
            assert(pieces_of(text@, l)[i] == out@[i]@);
        }
    }
    out
}

/// Joins text pieces back into one text, in order.
pub fn join(chunks: &Vec<String>) -> (r: String)
    ensures
        r@ == join_all(views_of(chunks@)),
{
    let mut out = String::new();
    let mut i: usize = 0;
    while i < chunks.len()
        invariant
            i <= chunks@.len(),
            out@ == join_all(views_of(chunks@.subrange(0, i as int))),
        decreases chunks@.len() - i,
    {
        proof {
            assert(views_of(chunks@.subrange(0, i + 1)) =~= views_of(chunks@.subrange(0, i as int)).push(chunks@[i as int]@));
            lemma_join_push(views_of(chunks@.subrange(0, i as int)), chunks@[i as int]@);
        }
        out.append(chunks[i].as_str());
        i = i + 1;
    }
    proof {
        assert(chunks@.subrange(0, i as int) =~= chunks@);
    }
    out
}

} // verus!
