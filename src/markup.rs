//! Reducing markup to plain text by dropping everything between `<` and `>`.
use vstd::prelude::*;
use crate::text::push_char;

verus! {

/// What the reducer emits for `s`, starting inside a tag when `inside` holds.
/// Outside a tag each character but `<` and `>` is kept; `<` opens a tag, `>`
/// closes it, and neither is ever kept.
pub open spec fn strip_from(s: Seq<char>, inside: bool) -> Seq<char>
    decreases s.len(),
{
    if s.len() == 0 {
        Seq::empty()
    } else if s[0] == '<' {
        strip_from(s.drop_first(), true)
    } else if s[0] == '>' {
        strip_from(s.drop_first(), false)
    } else if inside {
        strip_from(s.drop_first(), true)
    } else {
        seq![s[0]] + strip_from(s.drop_first(), false)
    }
}

/// The text of `s` outside its tags.
pub open spec fn strip(s: Seq<char>) -> Seq<char> {
    strip_from(s, false)
}

pub open spec fn no_brackets(s: Seq<char>) -> bool {
    forall|i: int| 0 <= i < s.len() ==> #[trigger] s[i] != '<' && s[i] != '>'
}

/// The characters of `body` that lie outside `<...>` spans.
pub fn strip_markup(body: &str) -> (r: String)
    ensures
        r@ == strip(body@),
{
    let mut out = String::new();
    let mut inside = false;
    assert(body@.skip(0) =~= body@);
    assert(out@ + strip(body@) =~= strip(body@));
    for c in it: body.chars()
        invariant
            it.seq() == body@,
            out@ + strip_from(body@.skip(it.index() as int), inside) == strip(body@),
    {
        let ghost i = it.index() as int;
        assert(body@.skip(i).drop_first() =~= body@.skip(i + 1));
        assert(body@.skip(i)[0] == c);
        if c == '<' {
            inside = true;
        } else if c == '>' {
            inside = false;
        } else if !inside {
            assert(out@.push(c) + strip_from(body@.skip(i + 1), false) =~= out@ + (seq![c]
                + strip_from(body@.skip(i + 1), false)));
            push_char(&mut out, c);
        }
    }
    assert(body@.skip(body@.len() as int) =~= Seq::<char>::empty());
    assert(out@ + Seq::<char>::empty() =~= out@);
    out
}

/// The reducer's output holds no `<` and no `>`.
pub proof fn lemma_strip_no_brackets(s: Seq<char>, inside: bool)
    ensures
        no_brackets(strip_from(s, inside)),
    decreases s.len(),
{
    if s.len() > 0 {
        lemma_strip_no_brackets(s.drop_first(), true);
        lemma_strip_no_brackets(s.drop_first(), false);
    }
}

/// Text without brackets passes through the reducer unchanged.
pub proof fn lemma_strip_plain(s: Seq<char>)
    requires
        no_brackets(s),
    ensures
        strip(s) == s,
    decreases s.len(),
{
    if s.len() > 0 {
        assert(s[0] != '<' && s[0] != '>');
        assert(no_brackets(s.drop_first()));
        lemma_strip_plain(s.drop_first());
        assert(seq![s[0]] + s.drop_first() =~= s);
    }
}

/// Inside a tag that is never closed, nothing is emitted.
pub proof fn lemma_strip_unclosed(s: Seq<char>)
    requires
        forall|i: int| 0 <= i < s.len() ==> s[i] != '>',
    ensures
        strip_from(s, true) == Seq::<char>::empty(),
    decreases s.len(),
{
    if s.len() > 0 {
        lemma_strip_unclosed(s.drop_first());
    }
}

/// Reducing twice gives what reducing once gives.
pub proof fn strip_idempotent(s: Seq<char>)
    ensures
        strip(strip(s)) == strip(s),
{
    lemma_strip_no_brackets(s, false);
    lemma_strip_plain(strip(s));
}

/// A `<` that no `>` follows hides everything from it to the end of the text.
pub proof fn strip_unterminated_tag(before: Seq<char>, after: Seq<char>, inside: bool)
    requires
        forall|i: int| 0 <= i < after.len() ==> after[i] != '>',
    ensures
        strip_from(before + seq!['<'] + after, inside) == strip_from(before, inside),
    decreases before.len(),
{
    let whole = before + seq!['<'] + after;
    if before.len() == 0 {
        assert(whole.drop_first() =~= after);
        lemma_strip_unclosed(after);
    } else {
        assert(whole.drop_first() =~= before.drop_first() + seq!['<'] + after);
        strip_unterminated_tag(before.drop_first(), after, true);
        strip_unterminated_tag(before.drop_first(), after, false);
    }
}

} // verus!
