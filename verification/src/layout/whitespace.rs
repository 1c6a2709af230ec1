//! CSS `white-space` processing, applied to each run of source text before shaping.
//!
//! In `normal` mode every segment break and tab is treated as a space, each run of spaces
//! collapses to one, and a space that would land where the processed text already ends in
//! one (including the start of a block) is dropped. In `pre` mode nothing is collapsed:
//! `\r\n` and a lone `\r` both become `\n`, every other character is kept.
//!
//! Processing is threaded run by run through one flag: whether the next run must suppress
//! a leading space. [`lemma_normal_runs_concatenate`] states why that is enough: processing
//! two runs one after the other gives exactly what processing their concatenation gives.
use vstd::prelude::*;

use crate::layout::geom::WhiteSpace;
use crate::strutil::{chars_of, push_char};

verus! {

/// The characters `normal` white-space collapses: space, tab, `\n`, `\r` and form feed.
pub open spec fn collapsible(c: char) -> bool {
    c == ' ' || c == '\t' || c == '\n' || c == '\r' || c == '\u{0C}'
}

/// What a non-collapsible character `c` emits in `normal` mode, given whether a leading
/// space is suppressed and whether a run of collapsible characters precedes it.
pub open spec fn normal_emit(suppress: bool, pending: bool, c: char) -> Seq<char> {
    if pending && !suppress {
        seq![' ', c]
    } else {
        seq![c]
    }
}

/// `normal` processing of `s` from the state `(suppress, pending)`: the text emitted so
/// far, and the state after the last character. `pending` records an unfinished run of
/// collapsible characters.
pub open spec fn normal_run(s: Seq<char>, suppress: bool, pending: bool) -> (Seq<char>, bool, bool)
    decreases s.len(),
{
    if s.len() == 0 {
        (Seq::empty(), suppress, pending)
    } else if collapsible(s[0]) {
        normal_run(s.drop_first(), suppress, true)
    } else {
        let rest = normal_run(s.drop_first(), false, false);
        (normal_emit(suppress, pending, s[0]) + rest.0, rest.1, rest.2)
    }
}

/// The single space an unfinished collapsible run turns into at the end of a text run,
/// unless a space is suppressed there.
pub open spec fn normal_flush(suppress: bool, pending: bool) -> Seq<char> {
    if pending && !suppress {
        seq![' ']
    } else {
        Seq::empty()
    }
}

/// The text that `normal` processing makes of `s`.
pub open spec fn normal_text(s: Seq<char>, suppress: bool) -> Seq<char> {
    let r = normal_run(s, suppress, false);
    r.0 + normal_flush(r.1, r.2)
}

/// Whether, after `normal` processing of `s`, the next run must suppress a leading space.
pub open spec fn normal_suppress_after(s: Seq<char>, suppress: bool) -> bool {
    let r = normal_run(s, suppress, false);
    r.1 || r.2
}

/// `pre` processing of `s`, where `after_cr` says whether the character before `s` was a
/// `\r`: the output text and whether the last character of `s` (or, for an empty `s`, the
/// one before) was a `\r`.
pub open spec fn pre_run(s: Seq<char>, after_cr: bool) -> (Seq<char>, bool)
    decreases s.len(),
{
    if s.len() == 0 {
        (Seq::empty(), after_cr)
    } else if s[0] == '\r' {
        let rest = pre_run(s.drop_first(), true);
        (seq!['\n'] + rest.0, rest.1)
    } else if s[0] == '\n' && after_cr {
        pre_run(s.drop_first(), false)
    } else {
        let rest = pre_run(s.drop_first(), false);
        (seq![s[0]] + rest.0, rest.1)
    }
}

/// The text that `pre` processing makes of `s`: `\r\n` and lone `\r` become `\n`.
pub open spec fn pre_text(s: Seq<char>) -> Seq<char> {
    pre_run(s, false).0
}

/// The result of processing one run of text.
#[derive(Debug, Clone)]
pub struct Processed {
    /// The processed text, ready to be concatenated into the block's shaping string.
    pub text: String,
    /// Whether a leading collapsible space in whatever comes next must be dropped.
    pub suppress_next_space: bool,
}

/// Whether `c` is collapsible in `normal` white-space.
pub fn is_collapsible(c: char) -> (r: bool)
    ensures
        r == collapsible(c),
{
    c == ' ' || c == '\t' || c == '\n' || c == '\r' || c == '\u{0C}'
}

proof fn lemma_normal_run_append(a: Seq<char>, b: Seq<char>, suppress: bool, pending: bool)
    ensures
        ({
            let ra = normal_run(a, suppress, pending);
            let rb = normal_run(b, ra.1, ra.2);
            normal_run(a + b, suppress, pending) == (ra.0 + rb.0, rb.1, rb.2)
        }),
    decreases a.len(),
{
    if a.len() == 0 {
        assert(a + b =~= b);
    } else {
        assert((a + b).drop_first() =~= a.drop_first() + b);
        assert((a + b)[0] == a[0]);
        if collapsible(a[0]) {
            lemma_normal_run_append(a.drop_first(), b, suppress, true);
        } else {
            lemma_normal_run_append(a.drop_first(), b, false, false);
            let ra = normal_run(a.drop_first(), false, false);
            let rb = normal_run(b, ra.1, ra.2);
            assert(normal_emit(suppress, pending, a[0]) + (ra.0 + rb.0) =~= (normal_emit(
                suppress,
                pending,
                a[0],
            ) + ra.0) + rb.0);
        }
    }
}

/// An unfinished collapsible run behaves exactly like its flushed form followed by the rest.
proof fn lemma_normal_flush_absorbs(b: Seq<char>, suppress: bool, pending: bool)
    ensures
        ({
            let r = normal_run(b, suppress, pending);
            let f = normal_run(b, suppress || pending, false);
            &&& r.0 + normal_flush(r.1, r.2) == normal_flush(suppress, pending) + (f.0
                + normal_flush(f.1, f.2))
            &&& (r.1 || r.2) == (f.1 || f.2)
        }),
    decreases b.len(),
{
    if !pending {
        assert(normal_flush(suppress, pending) + (normal_run(b, suppress, false).0 + normal_flush(
            normal_run(b, suppress, false).1,
            normal_run(b, suppress, false).2,
        )) =~= normal_run(b, suppress, false).0 + normal_flush(
            normal_run(b, suppress, false).1,
            normal_run(b, suppress, false).2,
        ));
    } else if b.len() == 0 {
        assert(normal_flush(suppress, pending) + (Seq::<char>::empty() + normal_flush(true, false))
            =~= Seq::<char>::empty() + normal_flush(suppress, pending));
    } else if collapsible(b[0]) {
        lemma_normal_flush_absorbs(b.drop_first(), suppress, true);
        lemma_normal_flush_absorbs(b.drop_first(), true, true);
    } else {
        let rest = normal_run(b.drop_first(), false, false);
        let tail = rest.0 + normal_flush(rest.1, rest.2);
        assert((normal_emit(suppress, true, b[0]) + rest.0) + normal_flush(rest.1, rest.2)
            =~= normal_flush(suppress, true) + ((normal_emit(true, false, b[0]) + rest.0)
            + normal_flush(rest.1, rest.2)));
    }
}

/// Processing two runs of text one after the other in `normal` mode, threading the
/// suppress flag from the first into the second, gives exactly the text and flag that
/// processing their concatenation in one go gives: a space split across two runs still
/// collapses to one.
pub proof fn lemma_normal_runs_concatenate(a: Seq<char>, b: Seq<char>, suppress: bool)
    ensures
        normal_text(a + b, suppress) == normal_text(a, suppress) + normal_text(
            b,
            normal_suppress_after(a, suppress),
        ),
        normal_suppress_after(a + b, suppress) == normal_suppress_after(
            b,
            normal_suppress_after(a, suppress),
        ),
{
    lemma_normal_run_append(a, b, suppress, false);
    let ra = normal_run(a, suppress, false);
    lemma_normal_flush_absorbs(b, ra.1, ra.2);
    let rb = normal_run(b, ra.1, ra.2);
    let f = normal_run(b, ra.1 || ra.2, false);
    let x = normal_flush(rb.1, rb.2);
    assert(rb.0 + x == normal_flush(ra.1, ra.2) + (f.0 + normal_flush(f.1, f.2)));
    assert((ra.0 + rb.0) + x =~= ra.0 + (rb.0 + x));
    assert(ra.0 + (normal_flush(ra.1, ra.2) + (f.0 + normal_flush(f.1, f.2))) =~= (ra.0
        + normal_flush(ra.1, ra.2)) + (f.0 + normal_flush(f.1, f.2)));
}

proof fn lemma_pre_run_append(a: Seq<char>, b: Seq<char>, after_cr: bool)
    ensures
        ({
            let ra = pre_run(a, after_cr);
            let rb = pre_run(b, ra.1);
            pre_run(a + b, after_cr) == (ra.0 + rb.0, rb.1)
        }),
    decreases a.len(),
{
    if a.len() == 0 {
        assert(a + b =~= b);
    } else {
        assert((a + b).drop_first() =~= a.drop_first() + b);
        assert((a + b)[0] == a[0]);
        if a[0] == '\r' {
            lemma_pre_run_append(a.drop_first(), b, true);
            let ra = pre_run(a.drop_first(), true);
            let rb = pre_run(b, ra.1);
            assert(seq!['\n'] + (ra.0 + rb.0) =~= (seq!['\n'] + ra.0) + rb.0);
        } else if a[0] == '\n' && after_cr {
            lemma_pre_run_append(a.drop_first(), b, false);
        } else {
            lemma_pre_run_append(a.drop_first(), b, false);
            let ra = pre_run(a.drop_first(), false);
            let rb = pre_run(b, ra.1);
            assert(seq![a[0]] + (ra.0 + rb.0) =~= (seq![a[0]] + ra.0) + rb.0);
        }
    }
}

/// Collapsed text: every character is a space or not collapsible at all, and no two spaces
/// are adjacent.
pub open spec fn collapsed(t: Seq<char>) -> bool {
    &&& forall|i: int| 0 <= i < t.len() ==> #[trigger] t[i] == ' ' || !collapsible(t[i])
    &&& forall|i: int| 0 < i < t.len() ==> !(#[trigger] t[i] == ' ' && t[i - 1] == ' ')
}

proof fn lemma_normal_run_shape(s: Seq<char>, suppress: bool, pending: bool)
    ensures
        ({
            let r = normal_run(s, suppress, pending);
            &&& forall|i: int| 0 <= i < r.0.len() ==> #[trigger] r.0[i] == ' ' || !collapsible(r.0[i])
            &&& forall|i: int| 0 <= i < r.0.len() && #[trigger] r.0[i] == ' ' ==> i + 1 < r.0.len() && r.0[i + 1] != ' '
            &&& r.0.len() > 0 && r.0[0] == ' ' ==> !suppress
            &&& r.0.len() == 0 ==> r.1 == suppress && r.2 == (pending || s.len() > 0)
            &&& r.0.len() > 0 ==> !r.1 && r.0.last() != ' '
        }),
    decreases s.len(),
{
    if s.len() > 0 {
        if collapsible(s[0]) {
            lemma_normal_run_shape(s.drop_first(), suppress, true);
        } else {
            lemma_normal_run_shape(s.drop_first(), false, false);
            let rest = normal_run(s.drop_first(), false, false);
            let e = normal_emit(suppress, pending, s[0]);
            let out = e + rest.0;
            assert forall|i: int| 0 <= i < out.len() implies #[trigger] out[i] == ' ' || !collapsible(out[i]) by {
                if i >= e.len() {
                    assert(out[i] == rest.0[i - e.len()]);
                }
            }
            assert forall|i: int| 0 <= i < out.len() && #[trigger] out[i] == ' ' implies i + 1 < out.len() && out[i + 1] != ' ' by {
                if i >= e.len() {
                    assert(out[i] == rest.0[i - e.len()]);
                    assert(out[i + 1] == rest.0[i + 1 - e.len()]);
                }
            }
            if rest.0.len() > 0 {
                assert(out.last() == rest.0.last());
            }
        }
    }
}

/// `normal` processing yields collapsed text: no tab or segment break survives, no two
/// spaces are adjacent, nothing starts with a space where a leading space is suppressed,
/// and the flag handed on says exactly whether the text so far ends in a space (the flag
/// received, when nothing was emitted).
pub proof fn lemma_normal_text_collapsed(s: Seq<char>, suppress: bool)
    ensures
        collapsed(normal_text(s, suppress)),
        suppress && normal_text(s, suppress).len() > 0 ==> normal_text(s, suppress)[0] != ' ',
        normal_suppress_after(s, suppress) == (if normal_text(s, suppress).len() == 0 {
            suppress
        } else {
            normal_text(s, suppress).last() == ' '
        }),
{
    lemma_normal_run_shape(s, suppress, false);
    let r = normal_run(s, suppress, false);
    let f = normal_flush(r.1, r.2);
    let out = r.0 + f;
    assert forall|i: int| 0 <= i < out.len() implies #[trigger] out[i] == ' ' || !collapsible(out[i]) by {
        if i < r.0.len() {
            assert(out[i] == r.0[i]);
        }
    }
    assert forall|i: int| 0 < i < out.len() implies !(#[trigger] out[i] == ' ' && out[i - 1] == ' ') by {
        if i < r.0.len() {
            assert(out[i] == r.0[i] && out[i - 1] == r.0[i - 1]);
        } else if i == r.0.len() {
            assert(out[i - 1] == r.0.last());
        }
    }
    if r.0.len() > 0 {
        assert(out[0] == r.0[0]);
        if f.len() == 0 {
            assert(out =~= r.0);
        }
    } else {
        assert(out =~= f);
    }
}

proof fn lemma_normal_text_fixes_collapsed(t: Seq<char>, suppress: bool)
    requires
        collapsed(t),
        suppress && t.len() > 0 ==> t[0] != ' ',
    ensures
        normal_text(t, suppress) == t,
    decreases t.len(),
{
    if t.len() > 0 {
        let rest = t.drop_first();
        assert(collapsed(rest)) by {
            assert forall|i: int| 0 <= i < rest.len() implies #[trigger] rest[i] == ' ' || !collapsible(rest[i]) by {
                assert(rest[i] == t[i + 1]);
            }
            assert forall|i: int| 0 < i < rest.len() implies !(#[trigger] rest[i] == ' ' && rest[i - 1] == ' ') by {
                assert(rest[i] == t[i + 1] && rest[i - 1] == t[i]);
            }
        }
        assert(t[0] == ' ' || !collapsible(t[0]));
        if !collapsible(t[0]) {
            lemma_normal_text_fixes_collapsed(rest, false);
            let r = normal_run(rest, false, false);
            assert(normal_run(t, suppress, false) == (seq![t[0]] + r.0, r.1, r.2));
            assert(normal_text(t, suppress) =~= seq![t[0]] + normal_text(rest, false));
            assert(t =~= seq![t[0]] + rest);
        } else {
            assert(!suppress);
            if rest.len() == 0 {
                assert(normal_run(rest, false, true) == (Seq::<char>::empty(), false, true));
                assert(normal_text(t, suppress) =~= seq![' ']);
                assert(t =~= seq![' ']);
            } else {
                assert(t[1] == rest[0]);
                assert(!collapsible(rest[0]));
                lemma_normal_text_fixes_collapsed(rest, false);
                let r2 = normal_run(rest.drop_first(), false, false);
                assert(normal_run(rest, false, true) == (seq![' ', rest[0]] + r2.0, r2.1, r2.2));
                assert(normal_run(rest, false, false) == (seq![rest[0]] + r2.0, r2.1, r2.2));
                assert(normal_run(t, suppress, false) == normal_run(rest, false, true));
                assert(normal_text(t, suppress) =~= seq![' '] + normal_text(rest, false));
                assert(t =~= seq![' '] + rest);
            }
        }
    }
}

proof fn lemma_normal_run_len(s: Seq<char>, suppress: bool, pending: bool)
    ensures
        ({
            let r = normal_run(s, suppress, pending);
            r.0.len() + normal_flush(r.1, r.2).len() <= s.len() + (if pending && !suppress { 1int } else { 0int })
        }),
    decreases s.len(),
{
    if s.len() > 0 {
        if collapsible(s[0]) {
            lemma_normal_run_len(s.drop_first(), suppress, true);
        } else {
            lemma_normal_run_len(s.drop_first(), false, false);
        }
    }
}

proof fn lemma_pre_run_len(s: Seq<char>, after_cr: bool)
    ensures
        pre_run(s, after_cr).0.len() <= s.len(),
    decreases s.len(),
{
    if s.len() > 0 {
        lemma_pre_run_len(s.drop_first(), s[0] == '\r');
        lemma_pre_run_len(s.drop_first(), false);
    }
}

/// Processing never makes a run longer: in either mode the output has at most as many
/// characters as the input.
pub proof fn lemma_processing_never_lengthens(s: Seq<char>, suppress: bool)
    ensures
        normal_text(s, suppress).len() <= s.len(),
        pre_text(s).len() <= s.len(),
{
    lemma_normal_run_len(s, suppress, false);
    lemma_pre_run_len(s, false);
}

/// `normal` processing is idempotent: processing its own output again, with the same
/// suppress flag, gives back the same text and hands on the same flag.
pub proof fn lemma_normal_text_idempotent(s: Seq<char>, suppress: bool)
    ensures
        normal_text(normal_text(s, suppress), suppress) == normal_text(s, suppress),
        normal_suppress_after(normal_text(s, suppress), suppress) == normal_suppress_after(s, suppress),
{
    let t = normal_text(s, suppress);
    lemma_normal_text_collapsed(s, suppress);
    lemma_normal_text_fixes_collapsed(t, suppress);
    lemma_normal_text_collapsed(t, suppress);
}

/// No `\r` survives `pre` processing: every segment break comes out as exactly one `\n`.
pub proof fn lemma_pre_has_no_carriage_return(s: Seq<char>, after_cr: bool)
    ensures
        !pre_run(s, after_cr).0.contains('\r'),
    decreases s.len(),
{
    if s.len() > 0 {
        let rest = s.drop_first();
        if s[0] == '\r' {
            lemma_pre_has_no_carriage_return(rest, true);
            let r = pre_run(rest, true).0;
            assert forall|i: int| 0 <= i < (seq!['\n'] + r).len() implies (seq!['\n'] + r)[i]
                != '\r' by {
                if i > 0 {
                    assert((seq!['\n'] + r)[i] == r[i - 1]);
                }
            }
        } else if s[0] == '\n' && after_cr {
            lemma_pre_has_no_carriage_return(rest, false);
        } else {
            lemma_pre_has_no_carriage_return(rest, false);
            let r = pre_run(rest, false).0;
            assert forall|i: int| 0 <= i < (seq![s[0]] + r).len() implies (seq![s[0]] + r)[i]
                != '\r' by {
                if i > 0 {
                    assert((seq![s[0]] + r)[i] == r[i - 1]);
                }
            }
        }
    }
}

/// Text without a `\r` passes through `pre` processing unchanged: nothing is collapsed or
/// dropped.
pub proof fn lemma_pre_keeps_text_without_cr(s: Seq<char>)
    requires
        !s.contains('\r'),
    ensures
        pre_text(s) == s,
    decreases s.len(),
{
    if s.len() > 0 {
        let rest = s.drop_first();
        assert(!rest.contains('\r')) by {
            if rest.contains('\r') {
                let j = choose|j: int| 0 <= j < rest.len() && rest[j] == '\r';
                assert(s[j + 1] == '\r');
            }
        }
        assert(s[0] != '\r');
        lemma_pre_keeps_text_without_cr(rest);
        assert(seq![s[0]] + rest =~= s);
    }
}

/// The `normal` half of [`process`]. Idempotent: see [`lemma_normal_text_idempotent`].
pub fn process_normal(text: &str, suppress_leading_space: bool) -> (p: Processed)
    ensures
        p.text@ == normal_text(text@, suppress_leading_space),
        p.suppress_next_space == normal_suppress_after(text@, suppress_leading_space),
{
    let chars = chars_of(text);
    let mut out = String::new();
    let mut suppress = suppress_leading_space;
    let mut in_space_run = false;
    let mut i: usize = 0;
    while i < chars.len()
        invariant
            i <= chars.len(),
            chars@ == text@,
            normal_run(chars@.take(i as int), suppress_leading_space, false) == (
                out@,
                suppress,
                in_space_run,
            ),
        decreases chars.len() - i,
    {
        let c = chars[i];
        proof {
            let pre = chars@.take(i as int);
            assert(chars@.take(i + 1) =~= pre + seq![c]);
            lemma_normal_run_append(pre, seq![c], suppress_leading_space, false);
            assert(seq![c].drop_first() =~= Seq::<char>::empty());
            assert(seq![c][0] == c);
            reveal_with_fuel(normal_run, 2);
        }
        if is_collapsible(c) {
            in_space_run = true;
        } else {
            if in_space_run {
                in_space_run = false;
                if !suppress {
                    push_char(&mut out, ' ');
                }
            }
            push_char(&mut out, c);
            suppress = false;
            proof {
                assert(out@ =~= normal_run(chars@.take(i + 1), suppress_leading_space, false).0);
            }
        }
        i += 1;
    }
    proof {
        assert(chars@.take(i as int) =~= text@);
    }
    if in_space_run && !suppress {
        push_char(&mut out, ' ');
        suppress = true;
    }
    proof {
        assert(out@ =~= normal_text(text@, suppress_leading_space));
    }
    Processed { text: out, suppress_next_space: suppress }
}

/// Normalizes `\r\n` and a lone `\r` to `\n`, leaving every other character untouched:
/// the `pre` half of [`process`].
fn normalize_segment_breaks(text: &str) -> (r: String)
    ensures
        r@ == pre_text(text@),
{
    let chars = chars_of(text);
    let mut out = String::new();
    let mut after_cr = false;
    let mut i: usize = 0;
    while i < chars.len()
        invariant
            i <= chars.len(),
            chars@ == text@,
            pre_run(chars@.take(i as int), false) == (out@, after_cr),
        decreases chars.len() - i,
    {
        let c = chars[i];
        proof {
            let pre = chars@.take(i as int);
            assert(chars@.take(i + 1) =~= pre + seq![c]);
            lemma_pre_run_append(pre, seq![c], false);
            assert(seq![c].drop_first() =~= Seq::<char>::empty());
            assert(seq![c][0] == c);
            reveal_with_fuel(pre_run, 2);
        }
        if c == '\r' {
            push_char(&mut out, '\n');
            after_cr = true;
        } else if c == '\n' && after_cr {
            after_cr = false;
        } else {
            after_cr = false;
            push_char(&mut out, c);
        }
        proof {
            assert(out@ =~= pre_run(chars@.take(i + 1), false).0);
        }
        i += 1;
    }
    proof {
        assert(chars@.take(i as int) =~= text@);
    }
    out
}

/// Processes one run of source text per `mode`, given whether a leading collapsible space
/// must be suppressed (the block's processed text so far ends in a space, or is empty).
/// Preserved text neither is nor creates a collapsible space, so after a `pre` run the
/// next run starts with a clean slate.
pub fn process(text: &str, mode: WhiteSpace, suppress_leading_space: bool) -> (p: Processed)
    ensures
        mode == WhiteSpace::Normal ==> p.text@ == normal_text(text@, suppress_leading_space)
            && p.suppress_next_space == normal_suppress_after(text@, suppress_leading_space),
        mode == WhiteSpace::Pre ==> p.text@ == pre_text(text@) && !p.suppress_next_space,
{
    match mode {
        WhiteSpace::Normal => process_normal(text, suppress_leading_space),
        WhiteSpace::Pre => Processed {
            text: normalize_segment_breaks(text),
            suppress_next_space: false,
        },
    }
}

} // verus!
