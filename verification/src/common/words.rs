//! The words of a text.
use vstd::prelude::*;

verus! {

/// Whether a character separates words: Unicode's white space.
pub open spec fn is_space(c: char) -> bool {
    let u = c as u32;
    9 <= u <= 13 || u == 0x20 || u == 0x85 || u == 0xa0 || u == 0x1680 || 0x2000 <= u <= 0x200a || u == 0x2028 || u
        == 0x2029 || u == 0x202f || u == 0x205f || u == 0x3000
}

/// The words of a text: the longest runs of characters that are not white
/// space.
pub open spec fn words(t: Seq<char>) -> Seq<Seq<char>>
    decreases t.len(),
{
    if t.len() == 0 {
        Seq::empty()
    } else {
        let before = words(t.drop_last());
        let c = t.last();
        if is_space(c) {
            before
        } else if t.len() >= 2 && !is_space(t[t.len() - 2]) {
            before.update(before.len() - 1, before.last().push(c))
        } else {
            before.push(seq![c])
        }
    }
}

fn space(c: char) -> (yes: bool)
    ensures
        yes == is_space(c),
{
    let u: u32 = c as u32;
    (9 <= u && u <= 13) || u == 0x20 || u == 0x85 || u == 0xa0 || u == 0x1680 || (0x2000 <= u && u <= 0x200a) || u
        == 0x2028 || u == 0x2029 || u == 0x202f || u == 0x205f || u == 0x3000
}

proof fn lemma_words_nonempty(t: Seq<char>)
    requires
        t.len() > 0,
        !is_space(t.last()),
    ensures
        words(t).len() > 0,
    decreases t.len(),
{
    if t.len() >= 2 && !is_space(t[t.len() - 2]) {
        assert(t.drop_last().last() == t[t.len() - 2]);
        lemma_words_nonempty(t.drop_last());
    }
}

/// The words of a text.
pub fn split_words(text: &str) -> (out: Vec<String>)
    ensures
        out@.len() == words(text@).len(),
        forall|i: int| 0 <= i < out@.len() ==> (#[trigger] out@[i])@ == words(text@)[i],
{
    let n: usize = text.unicode_len();
    let mut out: Vec<String> = Vec::new();
    let mut inside = false;
    let mut i: usize = 0;
    assert(text@.take(0) =~= Seq::empty());
    while i < n
        invariant
            i <= n,
            n == text@.len(),
            inside == (i > 0 && !is_space(text@[i - 1])),
            out@.len() == words(text@.take(i as int)).len(),
            forall|k: int| 0 <= k < out@.len() ==> (#[trigger] out@[k])@ == words(text@.take(i as int))[k],
        decreases n - i,
    {
        let c = text.get_char(i);
        let ghost part = text@.take(i as int);
        let ghost next = text@.take(i + 1);
        let ghost out0 = out@;
        assert(next.drop_last() =~= part);
        assert(next.last() == c);
        proof {
            if i > 0 {
                assert(next[next.len() - 2] == text@[i - 1]);
                assert(part.last() == text@[i - 1]);
            }
        }
        if space(c) {
            inside = false;
        } else if inside {
            proof {
                lemma_words_nonempty(part);
            }
            let at: usize = out.len() - 1;
            let mut word = out.remove(at);
            word.push(c);
            out.push(word);
            inside = true;
            proof {
                assert forall|k: int| 0 <= k < out@.len() implies (#[trigger] out@[k])@ == words(next)[k] by {
                    if k < at {
                        assert(out@[k] == out0[k]);
                    }
                }
            }
        } else {
            let mut word = String::new();
            word.push(c);
            assert(word@ =~= seq![c]);
            out.push(word);
            inside = true;
            proof {
                assert forall|k: int| 0 <= k < out@.len() implies (#[trigger] out@[k])@ == words(next)[k] by {
                    if k < out0.len() {
                        assert(out@[k] == out0[k]);
                    }
                }
            }
        }
        i = i + 1;
    }
    assert(text@.take(i as int) =~= text@);
    out
}

/// Words are runs of characters between white space: a text without white
/// space is one word, and white space between two texts keeps their words
/// apart.
pub proof fn words_end_at_white_space(a: Seq<char>, gap: char, b: Seq<char>)
    requires
        is_space(gap),
    ensures
        words(a + seq![gap] + b) == words(a) + words(b),
        b.len() > 0 && (forall|i: int| 0 <= i < b.len() ==> !is_space(#[trigger] b[i])) ==> words(b) == seq![b],
        b.len() == 0 ==> words(b).len() == 0,
    decreases b.len(),
{
    let all = a + seq![gap] + b;
    if b.len() == 0 {
        assert(all.drop_last() =~= a);
        assert(all.last() == gap);
        assert(words(all) =~= words(a) + words(b));
    } else {
        let init = b.drop_last();
        let c = b.last();
        words_end_at_white_space(a, gap, init);
        assert(all.drop_last() =~= a + seq![gap] + init);
        assert(all.last() == c);
        if init.len() > 0 {
            assert(all[all.len() - 2] == init.last());
            assert(b[b.len() - 2] == init.last());
            if !is_space(c) && !is_space(init.last()) {
                lemma_words_nonempty(init);
            }
        } else {
            assert(all[all.len() - 2] == gap);
        }
        assert(words(all) =~= words(a) + words(b));
        if forall|i: int| 0 <= i < b.len() ==> !is_space(#[trigger] b[i]) {
            assert(!is_space(b[b.len() - 1]));
            assert forall|i: int| 0 <= i < init.len() implies !is_space(#[trigger] init[i]) by {
                assert(!is_space(b[i]));
            }
            if init.len() > 0 {
                assert(!is_space(b[b.len() - 2]));
                assert(init.push(c) =~= b);
            } else {
                assert(seq![c] =~= b);
            }
            assert(words(b) =~= seq![b]);
        }
    }
}

/// What separates words: in ASCII the space, the tabulator and the other four
/// line and page breaks; beyond it the blanks of Unicode.
pub proof fn white_space_is_known(c: char)
    ensures
        (c as u32) < 128 ==> (is_space(c) <==> c == ' ' || c == '\t' || c == '\n' || c == '\r' || c as u32 == 11 || c as u32
            == 12),
        (c as u32) >= 128 && is_space(c) ==> c == '\u{85}' || c == '\u{a0}' || c == '\u{1680}' || ('\u{2000}' <= c
            && c <= '\u{200a}') || c == '\u{2028}' || c == '\u{2029}' || c == '\u{202f}' || c == '\u{205f}' || c
            == '\u{3000}',
        is_space('\u{85}') && is_space('\u{a0}') && is_space('\u{1680}') && is_space('\u{2000}') && is_space('\u{200a}')
            && is_space('\u{2028}') && is_space('\u{2029}') && is_space('\u{202f}') && is_space('\u{205f}') && is_space(
            '\u{3000}',
        ),
{
}

} // verus!
