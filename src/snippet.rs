//! Short previews of document text.
use vstd::prelude::*;
use vstd::std_specs::iter::IteratorSpec;
use vstd::string::StrSliceExecFns;
use vstd::string::StringExecFns;

verus! {

broadcast use vstd::string::axiom_spec_iter, vstd::string::next_postcondition;

/// Unicode `White_Space`, the set `char::is_whitespace` tests.
pub open spec fn is_space(c: char) -> bool {
    ||| ('\t' <= c && c <= '\r')
    ||| c == ' '
    ||| c == '\u{85}'
    ||| c == '\u{a0}'
    ||| c == '\u{1680}'
    ||| ('\u{2000}' <= c && c <= '\u{200a}')
    ||| c == '\u{2028}'
    ||| c == '\u{2029}'
    ||| c == '\u{202f}'
    ||| c == '\u{205f}'
    ||| c == '\u{3000}'
}

/// Tests a character for Unicode `White_Space`.
pub fn is_space_char(c: char) -> (r: bool)
    ensures
        r == is_space(c),
{
    ('\t' <= c && c <= '\r') || c == ' ' || c == '\u{85}' || c == '\u{a0}' || c == '\u{1680}' || (
    '\u{2000}' <= c && c <= '\u{200a}') || c == '\u{2028}' || c == '\u{2029}' || c == '\u{202f}'
        || c == '\u{205f}' || c == '\u{3000}'
}

/// Reading `s` left to right: the collapsed text so far, and whether a
/// space is owed before the next word.
pub open spec fn squeeze_state(s: Seq<char>) -> (Seq<char>, bool)
    decreases s.len(),
{
    if s.len() == 0 {
        (Seq::empty(), false)
    } else {
        let (out, pending) = squeeze_state(s.drop_last());
        let c = s.last();
        if is_space(c) {
            (out, out.len() > 0)
        } else if pending {
            (out.push(' ').push(c), false)
        } else {
            (out.push(c), false)
        }
    }
}

/// The words of `s` joined by single spaces: leading and trailing
/// whitespace dropped, each inner whitespace run made one space.
pub open spec fn squeeze(s: Seq<char>) -> Seq<char> {
    squeeze_state(s).0
}

/// The largest cut `i <= end` that follows a whitespace character (0 when
/// there is none).
pub open spec fn last_break(c: Seq<char>, end: nat) -> nat
    decreases end,
{
    if end == 0 {
        0
    } else if is_space(c[end - 1]) {
        end
    } else {
        last_break(c, (end - 1) as nat)
    }
}

pub open spec fn ellipsis() -> Seq<char> {
    seq!['.', '.', '.']
}

/// The snippet of `text` for a budget of `max` characters: the collapsed
/// text when it fits; otherwise it is cut after the last whitespace before
/// the budget when that lies past half the budget, else at the budget, and
/// "..." is added.
pub open spec fn snippet_of(text: Seq<char>, max: nat) -> Seq<char> {
    let c = squeeze(text);
    if c.len() <= max {
        c
    } else if last_break(c, max) > max / 2 {
        c.take(last_break(c, max) as int) + ellipsis()
    } else {
        c.take(max as int) + ellipsis()
    }
}

proof fn lemma_squeeze_grows(s: Seq<char>, i: int, j: int)
    requires
        0 <= i <= j <= s.len(),
    ensures
        squeeze_state(s.take(j)).0.len() >= squeeze_state(s.take(i)).0.len(),
        squeeze_state(s.take(j)).0.take(squeeze_state(s.take(i)).0.len() as int)
            == squeeze_state(s.take(i)).0,
    decreases j - i,
{
    if i < j {
        lemma_squeeze_grows(s, i, j - 1);
        assert(s.take(j).drop_last() =~= s.take(j - 1));
        let a = squeeze_state(s.take(i)).0;
        let b = squeeze_state(s.take(j - 1)).0;
        let c = squeeze_state(s.take(j)).0;
        assert(c.take(b.len() as int) =~= b);
        assert(c.take(a.len() as int) =~= b.take(a.len() as int));
    } else {
        let a = squeeze_state(s.take(i)).0;
        assert(a.take(a.len() as int) =~= a);
    }
}

proof fn lemma_last_break_prefix(c: Seq<char>, d: Seq<char>, end: nat)
    requires
        end <= c.len(),
        end <= d.len(),
        c.take(end as int) == d.take(end as int),
    ensures
        last_break(c, end) == last_break(d, end),
    decreases end,
{
    if end > 0 {
        assert(c[end - 1] == c.take(end as int)[end - 1]);
        assert(d[end - 1] == d.take(end as int)[end - 1]);
        assert(c.take(end - 1) =~= c.take(end as int).take(end - 1));
        assert(d.take(end - 1) =~= d.take(end as int).take(end - 1));
        lemma_last_break_prefix(c, d, (end - 1) as nat);
    }
}

/// A preview of `text`: its words joined by single spaces, cut near
/// `max_length` characters with "..." added when longer.
pub fn create_snippet(text: &str, max_length: usize) -> (r: String)
    requires
        max_length <= usize::MAX - 3,
    ensures
        r@ == snippet_of(text@, max_length as nat),
{
    let n = text.unicode_len();
    let mut it = text.chars();
    let mut out = String::new();
    let mut out_len: usize = 0;
    let mut pending = false;
    let mut i: usize = 0;
    let ghost s = text@;
    proof {
        assert(s.take(0) =~= Seq::<char>::empty());
    }
    while out_len <= max_length
        invariant
            s == text@,
            s.len() == n,
            max_length <= usize::MAX - 3,
            i <= s.len(),
            it.remaining() == s.skip(i as int),
            squeeze_state(s.take(i as int)) == (out@, pending),
            out_len == out@.len(),
            out_len <= max_length + 2,
        ensures
            out_len <= max_length ==> i == s.len(),
            i <= s.len(),
            squeeze_state(s.take(i as int)) == (out@, pending),
            out_len == out@.len(),
        decreases s.len() - i,
    {
        let ghost before = it;
        match it.next() {
            None => {
                assert(s.skip(i as int).len() == 0);
                break;
            },
            Some(c) => {
                assert(s.skip(i as int).len() > 0);
                assert(c == s[i as int]);
                assert(s.take(i as int + 1).drop_last() =~= s.take(i as int));
                if is_space_char(c) {
                    pending = out_len > 0;
                } else {
                    if pending {
                        out.append(" ");
                        proof {
                            reveal_strlit(" ");
                        }
                        out_len = out_len + 1;
                        pending = false;
                    }
                    let piece = text.substring_char(i, i + 1);
                    assert(piece@ =~= seq![c]);
                    out.append(piece);
                    out_len = out_len + 1;
                }
                assert(s.skip(i as int).drop_first() =~= s.skip(i as int + 1));
                i = i + 1;
            },
        }
    }
    let ghost full = squeeze(s);
    proof {
        assert(s.take(s.len() as int) =~= s);
        lemma_squeeze_grows(s, i as int, s.len() as int);
    }
    if out_len <= max_length {
        proof {
            assert(i == s.len());
        }
        return out;
    }
    let end = max_length;
    let mut cut = end;
    proof {
        assert(full.take(out@.len() as int) == out@);
        assert(out@.take(end as int) =~= full.take(end as int));
    }
    while cut > 0 && !is_space_char(out.as_str().get_char(cut - 1))
        invariant
            cut <= end,
            end < out@.len(),
            last_break(out@, end as nat) == last_break(out@, cut as nat),
        decreases cut,
    {
        cut = cut - 1;
    }
    proof {
        lemma_last_break_prefix(out@, full, end as nat);
        assert(out@.take(cut as int) =~= full.take(cut as int));
        assert(out@.take(end as int) =~= full.take(end as int));
    }
    let keep = if cut > max_length / 2 { cut } else { end };
    let mut r = String::from_str(out.as_str().substring_char(0, keep));
    r.append("...");
    proof {
        reveal_strlit("...");
        assert(r@ =~= full.take(keep as int) + ellipsis());
    }
    r
}

/// The first 200 characters of a text, with "..." added when it is longer.
pub open spec fn preview_of(text: Seq<char>) -> Seq<char> {
    if text.len() > 200 {
        text.take(200) + ellipsis()
    } else {
        text
    }
}

/// The preview a search result carries: the first 200 characters of the
/// text, with "..." added when the text is longer.
pub fn preview(text: &str) -> (r: String)
    ensures
        r@ == preview_of(text@),
{
    let n = text.unicode_len();
    if n > 200 {
        let mut r = String::from_str(text.substring_char(0, 200));
        r.append("...");
        proof {
            reveal_strlit("...");
            assert(r@ =~= text@.take(200) + ellipsis());
        }
        r
    } else {
        String::from_str(text)
    }
}

} // verus!
