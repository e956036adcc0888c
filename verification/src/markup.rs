//! Texts between markers.
use vstd::prelude::*;
use vstd::string::*;
use vstd::utf8::*;

verus! {

/// Whether a pattern stands at place `i` of a text.
pub open spec fn occurs_at(t: Seq<u8>, pat: Seq<u8>, i: int) -> bool {
    0 <= i && i + pat.len() <= t.len() && t.subrange(i, i + pat.len()) == pat
}

/// The first place from `i` on where a pattern stands.
pub open spec fn first_from(t: Seq<u8>, pat: Seq<u8>, i: int) -> Option<int>
    decreases t.len() - i + 1,
{
    if i > t.len() {
        None
    } else if occurs_at(t, pat, i) {
        Some(i)
    } else {
        first_from(t, pat, i + 1)
    }
}

/// The first place where a pattern stands is such a place, and none comes before
/// it; where there is none, the pattern stands nowhere.
pub proof fn law_first_from(t: Seq<u8>, pat: Seq<u8>, i: int, k: int)
    requires
        0 <= i <= k,
    ensures
        match first_from(t, pat, i) {
            None => !occurs_at(t, pat, k),
            Some(f) => i <= f && occurs_at(t, pat, f) && (k < f ==> !occurs_at(t, pat, k)),
        },
    decreases t.len() - i + 1,
{
    if i <= t.len() && !occurs_at(t, pat, i) {
        if i < k {
            law_first_from(t, pat, i + 1, k);
        } else {
            law_first_from(t, pat, i + 1, i + 1);
        }
    }
}

/// The texts between markers: from the first opening marker to the first closing
/// marker behind it, and so on behind that.
pub open spec fn blocks(t: Seq<u8>, open: Seq<u8>, close: Seq<u8>) -> Seq<Seq<u8>>
    decreases t.len(),
{
    match first_from(t, open, 0) {
        None => Seq::empty(),
        Some(i) => {
            let after = t.skip(i + open.len());
            match first_from(after, close, 0) {
                None => Seq::empty(),
                Some(j) => {
                    let rest = after.skip(j + close.len());
                    proof {
                        law_first_from(t, open, 0, 0);
                        law_first_from(after, close, 0, 0);
                    }
                    if rest.len() < t.len() {
                        seq![after.take(j)] + blocks(rest, open, close)
                    } else {
                        seq![after.take(j)]
                    }
                },
            }
        },
    }
}

/// A block stands at place `a` of a text: right behind an opening marker, right
/// before a closing one, and with no closing one in between.
pub open spec fn delimited(t: Seq<u8>, open: Seq<u8>, close: Seq<u8>, a: int, block: Seq<u8>) -> bool {
    &&& occurs_at(t, open, a - open.len())
    &&& occurs_at(t, block, a)
    &&& occurs_at(t, close, a + block.len())
    &&& forall|y: int| a <= y < a + block.len() ==> !#[trigger] occurs_at(t, close, y)
}

proof fn lemma_occurs_behind(t: Seq<u8>, pat: Seq<u8>, d: int, x: int)
    requires
        0 <= d <= t.len(),
        0 <= x,
    ensures
        occurs_at(t.skip(d), pat, x) == occurs_at(t, pat, x + d),
{
    if x + d + pat.len() <= t.len() {
        assert(t.skip(d).subrange(x, x + pat.len()) =~= t.subrange(x + d, x + d + pat.len()));
    }
}

proof fn lemma_delimited_behind(
    t: Seq<u8>,
    open: Seq<u8>,
    close: Seq<u8>,
    d: int,
    a: int,
    block: Seq<u8>,
)
    requires
        0 <= d <= t.len(),
        delimited(t.skip(d), open, close, a, block),
    ensures
        delimited(t, open, close, a + d, block),
{
    lemma_occurs_behind(t, open, d, a - open.len());
    lemma_occurs_behind(t, block, d, a);
    lemma_occurs_behind(t, close, d, a + block.len());
    assert forall|y: int| a + d <= y < a + d + block.len() implies !#[trigger] occurs_at(
        t,
        close,
        y,
    ) by {
        lemma_occurs_behind(t, close, d, y - d);
        assert(!occurs_at(t.skip(d), close, y - d));
    }
}

/// The texts between markers stand between markers, in order, and do not overlap.
pub proof fn law_blocks(t: Seq<u8>, open: Seq<u8>, close: Seq<u8>) -> (at: Seq<int>)
    ensures
        at.len() == blocks(t, open, close).len(),
        forall|k: int|
            0 <= k < at.len() ==> delimited(
                t,
                open,
                close,
                #[trigger] at[k],
                blocks(t, open, close)[k],
            ),
        forall|k: int, l: int|
            0 <= k < l < at.len() ==> #[trigger] at[k] + blocks(t, open, close)[k].len()
                + close.len() + open.len() <= #[trigger] at[l],
    decreases t.len(),
{
    law_first_from(t, open, 0, 0);
    match first_from(t, open, 0) {
        None => Seq::empty(),
        Some(i) => {
            let d = i + open.len();
            let after = t.skip(d);
            law_first_from(after, close, 0, 0);
            match first_from(after, close, 0) {
                None => Seq::empty(),
                Some(j) => {
                    let e = j + close.len();
                    let rest = after.skip(e);
                    let block = after.take(j);
                    assert(rest =~= t.skip(d + e));
                    assert(occurs_at(t, block, d)) by {
                        assert(t.subrange(d, d + j) =~= block);
                    }
                    lemma_occurs_behind(t, close, d, j);
                    assert forall|y: int| d <= y < d + j implies !#[trigger] occurs_at(
                        t,
                        close,
                        y,
                    ) by {
                        law_first_from(after, close, 0, y - d);
                        lemma_occurs_behind(t, close, d, y - d);
                    }
                    assert(delimited(t, open, close, d, block));
                    if rest.len() < t.len() {
                        let more = law_blocks(rest, open, close);
                        let at = seq![d] + Seq::new(more.len(), |k: int| more[k] + d + e);
                        let all = blocks(t, open, close);
                        assert forall|k: int| 0 <= k < at.len() implies delimited(
                            t,
                            open,
                            close,
                            #[trigger] at[k],
                            all[k],
                        ) by {
                            if k > 0 {
                                assert(delimited(
                                    rest,
                                    open,
                                    close,
                                    more[k - 1],
                                    blocks(rest, open, close)[k - 1],
                                ));
                                lemma_delimited_behind(t, open, close, d + e, more[k - 1], all[k]);
                            }
                        }
                        assert forall|k: int, l: int| 0 <= k < l < at.len() implies #[trigger] at[k]
                            + all[k].len() + close.len() + open.len() <= #[trigger] at[l] by {
                            assert(delimited(
                                rest,
                                open,
                                close,
                                more[l - 1],
                                blocks(rest, open, close)[l - 1],
                            ));
                            if k > 0 {
                                assert(more[k - 1] + all[k].len() + close.len() + open.len()
                                    <= more[l - 1]);
                            }
                        }
                        at
                    } else {
                        seq![d]
                    }
                },
            }
        },
    }
}

/// What texts hold.
pub open spec fn text_bytes(v: Seq<&str>) -> Seq<Seq<u8>> {
    Seq::new(v.len(), |i: int| v[i].spec_bytes())
}

/// Whether a pattern stands at a place of a text.
fn stands_at(t: &[u8], pat: &[u8], i: usize) -> (r: bool)
    requires
        i <= t@.len(),
    ensures
        r == occurs_at(t@, pat@, i as int),
{
    let n = pat.len();
    let len = t.len();
    if len - i < n {
        return false;
    }
    for k in 0..n
        invariant
            n == pat@.len(),
            len == t@.len(),
            i + n <= len,
            forall|x: int| 0 <= x < k ==> t@[i + x] == #[trigger] pat@[x],
    {
        if t[i + k] != pat[k] {
            assert(t@.subrange(i as int, i + n)[k as int] == t@[i + k]);
            return false;
        }
    }
    assert(t@.subrange(i as int, i + n) =~= pat@);
    true
}

/// The first place where a pattern stands.
fn find(t: &[u8], pat: &[u8]) -> (r: Option<usize>)
    ensures
        match r {
            None => first_from(t@, pat@, 0) is None,
            Some(i) => first_from(t@, pat@, 0) == Some(i as int),
        },
{
    let n = t.len();
    let mut i: usize = 0;
    while i < n
        invariant
            n == t@.len(),
            i <= n,
            first_from(t@, pat@, 0) == first_from(t@, pat@, i as int),
        decreases n - i,
    {
        if stands_at(t, pat, i) {
            return Some(i);
        }
        i = i + 1;
    }
    if stands_at(t, pat, n) {
        Some(n)
    } else {
        assert(first_from(t@, pat@, n + 1) is None);
        None
    }
}

/// Where a text stands in a text, both its ends lie between characters.
proof fn lemma_between_characters(t: Seq<u8>, pat: Seq<u8>, i: int)
    requires
        valid_utf8(t),
        valid_utf8(pat),
        pat.len() > 0 || i == 0,
        occurs_at(t, pat, i),
    ensures
        is_char_boundary(t, i),
        is_char_boundary(t, i + pat.len()),
{
    if pat.len() > 0 {
        is_char_boundary_start_end_of_seq(pat);
        is_char_boundary_iff_not_is_continuation_byte(pat, 0);
        assert(t.subrange(i, i + pat.len())[0] == t[i]);
        is_char_boundary_iff_not_is_continuation_byte(t, i);
        let n = t.len() as int;
        let end = i + pat.len();
        valid_utf8_split(t, i);
        let tail = t.subrange(i, n);
        assert(tail.subrange(0, pat.len() as int) =~= pat);
        let rest = tail.subrange(pat.len() as int, tail.len() as int);
        if !valid_utf8(rest) {
            partial_valid_partial_invalid_utf8(tail, pat.len() as int);
        }
        if end < n {
            is_char_boundary_start_end_of_seq(rest);
            is_char_boundary_iff_not_is_continuation_byte(rest, 0);
            assert(rest[0] == t[end]);
            is_char_boundary_iff_not_is_continuation_byte(t, end);
        } else {
            is_char_boundary_start_end_of_seq(t);
        }
    } else {
        is_char_boundary_start_end_of_seq(t);
    }
}

/// The texts between markers, in order.
pub fn find_blocks<'a>(txt: &'a str, open: &str, close: &str) -> (r: Vec<&'a str>)
    requires
        open.spec_bytes().len() + close.spec_bytes().len() > 0,
    ensures
        text_bytes(r@) == blocks(txt.spec_bytes(), open.spec_bytes(), close.spec_bytes()),
{
    let mut out: Vec<&'a str> = Vec::new();
    let mut rest: &'a str = txt;
    let ghost (o, c) = (open.spec_bytes(), close.spec_bytes());
    let ghost all = blocks(txt.spec_bytes(), o, c);
    let (open_len, close_len) = (open.as_bytes().len(), close.as_bytes().len());
    assert(text_bytes(out@) + all =~= all);
    proof {
        encode_utf8_valid_utf8(open@);
        encode_utf8_valid_utf8(close@);
    }
    loop
        invariant_except_break
            o == open.spec_bytes(),
            c == close.spec_bytes(),
            valid_utf8(o),
            valid_utf8(c),
            open_len == o.len(),
            close_len == c.len(),
            o.len() + c.len() > 0,
            text_bytes(out@) + blocks(rest.spec_bytes(), o, c) == all,
        ensures
            text_bytes(out@) == all,
        decreases rest.spec_bytes().len(),
    {
        let ghost t = rest.spec_bytes();
        let bytes = rest.as_bytes();
        proof {
            assert(bytes.len() == bytes@.len());
            encode_utf8_valid_utf8(rest@);
            law_first_from(t, o, 0, 0);
            assert(o.len() == 0 ==> t.subrange(0, 0) =~= o);
        }
        match find(bytes, open.as_bytes()) {
            None => {
                assert(text_bytes(out@) + Seq::empty() =~= text_bytes(out@));
                break ;
            },
            Some(i) => {
                proof {
                    lemma_between_characters(t, o, i as int);
                }
                let (_, after) = rest.split_at(i + open_len);
                let ghost a = after.spec_bytes();
                proof {
                    assert(a =~= t.skip(i + o.len()));
                    encode_utf8_valid_utf8(after@);
                    law_first_from(a, c, 0, 0);
                    assert(c.len() == 0 ==> a.subrange(0, 0) =~= c);
                }
                match find(after.as_bytes(), close.as_bytes()) {
                    None => {
                        assert(text_bytes(out@) + Seq::empty() =~= text_bytes(out@));
                        break ;
                    },
                    Some(j) => {
                        proof {
                            lemma_between_characters(a, c, j as int);
                        }
                        let (inner, _) = after.split_at(j);
                        let (_, behind) = after.split_at(j + close_len);
                        let ghost before = out@;
                        out.push(inner);
                        proof {
                            assert(inner.spec_bytes() =~= a.take(j as int));
                            assert(behind.spec_bytes() =~= a.skip(j + c.len()));
                            assert(text_bytes(out@) =~= text_bytes(before).push(a.take(j as int)));
                            let more = blocks(behind.spec_bytes(), o, c);
                            assert(text_bytes(out@) + more =~= text_bytes(before) + (seq![
                                a.take(j as int),
                            ] + more));
                        }
                        rest = behind;
                    },
                }
            },
        }
    }
    out
}

} // verus!
