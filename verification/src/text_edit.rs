//! A single-line text field: its text, its placeholder and a cursor, and
//! what the keys do to them.
//!
//! The text is a sequence of characters and the cursor a position between
//! two of them (`0..=len`).

use vstd::prelude::*;

verus! {

/// Whether `c` has the Unicode `White_Space` property, as std's
/// `char::is_whitespace` tests: U+0009 to U+000D, U+0020, U+0085, U+00A0,
/// U+1680, U+2000 to U+200A, U+2028, U+2029, U+202F, U+205F and U+3000.
pub open spec fn whitespace(c: char) -> bool {
    let n = c as u32;
    ||| 0x09 <= n <= 0x0d
    ||| n == 0x20
    ||| n == 0x85
    ||| n == 0xa0
    ||| n == 0x1680
    ||| 0x2000 <= n <= 0x200a
    ||| n == 0x2028
    ||| n == 0x2029
    ||| n == 0x202f
    ||| n == 0x205f
    ||| n == 0x3000
}

/// Whether std's `char::is_alphanumeric` holds of `c` (Unicode `Alphabetic`
/// or `Numeric`).
pub uninterp spec fn alphanumeric(c: char) -> bool;

/// Whether `c` is in the Unicode general category `Cc`, as std's
/// `char::is_control` tests: U+0000 to U+001F and U+007F to U+009F.
pub open spec fn control(c: char) -> bool {
    let n = c as u32;
    n <= 0x1f || (0x7f <= n <= 0x9f)
}

/// Whether `c` has the Unicode `White_Space` property (what std's
/// `char::is_whitespace` tests).
fn is_whitespace(c: char) -> (r: bool)
    ensures
        r == whitespace(c),
{
    let n = c as u32;
    (0x09 <= n && n <= 0x0d) || n == 0x20 || n == 0x85 || n == 0xa0 || n == 0x1680 || (0x2000 <= n && n
        <= 0x200a) || n == 0x2028 || n == 0x2029 || n == 0x202f || n == 0x205f || n == 0x3000
}

/// Calls `char::is_alphanumeric`; its result is named `alphanumeric`.
#[verifier::external_body]
fn is_alphanumeric(c: char) -> (r: bool)
    ensures
        r == alphanumeric(c),
{
    c.is_alphanumeric()
}

/// Whether `c` is in the Unicode general category `Cc` (what std's
/// `char::is_control` tests).
fn is_control(c: char) -> (r: bool)
    ensures
        r == control(c),
{
    let n = c as u32;
    n <= 0x1f || (0x7f <= n && n <= 0x9f)
}

/// The keys a text field reacts to; any other key is `Other`.
#[derive(Debug, Clone, Copy, PartialEq, Eq, Structural)]
pub enum EditKey {
    ArrowLeft,
    ArrowRight,
    Backspace,
    Delete,
    Escape,
    Other,
}

/// A text field.
#[derive(Debug)]
pub struct TextEdit {
    pub text: Vec<char>,
    /// Shown while the text is empty.
    pub placeholder: Vec<char>,
    /// The cursor, as a number of characters from the start.
    pub cursor: usize,
}

/// The typed text without its control characters.
pub open spec fn printable(s: Seq<char>) -> Seq<char> {
    s.filter(|c: char| !control(c))
}

/// The length of the run of whitespace just before position `c`.
pub open spec fn space_before(t: Seq<char>, c: int) -> nat
    decreases c,
{
    if c > 0 && c <= t.len() && whitespace(t[c - 1]) {
        1 + space_before(t, c - 1)
    } else {
        0
    }
}

/// The length of the run of non-whitespace characters of class `cls`
/// (alphanumeric or not) just before position `c`.
pub open spec fn class_before(t: Seq<char>, c: int, cls: bool) -> nat
    decreases c,
{
    if c > 0 && c <= t.len() && !whitespace(t[c - 1]) && alphanumeric(t[c - 1]) == cls {
        1 + class_before(t, c - 1, cls)
    } else {
        0
    }
}

/// The length of the run of whitespace from position `c` on.
pub open spec fn space_after(t: Seq<char>, c: int) -> nat
    decreases t.len() - c,
{
    if 0 <= c < t.len() && whitespace(t[c]) {
        1 + space_after(t, c + 1)
    } else {
        0
    }
}

/// The length of the run of non-whitespace characters of class `cls` from
/// position `c` on.
pub open spec fn class_after(t: Seq<char>, c: int, cls: bool) -> nat
    decreases t.len() - c,
{
    if 0 <= c < t.len() && !whitespace(t[c]) && alphanumeric(t[c]) == cls {
        1 + class_after(t, c + 1, cls)
    } else {
        0
    }
}

/// Where a word deleted backwards from `c` starts: the whitespace before
/// `c`, and then the characters of the class of the one before it.
pub open spec fn word_start(t: Seq<char>, c: int) -> int {
    let a = c - space_before(t, c);
    if a > 0 {
        a - class_before(t, a, alphanumeric(t[a - 1]))
    } else {
        a
    }
}

/// Where a word deleted forwards from `c` ends: the whitespace after `c`,
/// and then the characters of the class of the one after it.
pub open spec fn word_end(t: Seq<char>, c: int) -> int {
    let a = c + space_after(t, c);
    if a < t.len() {
        a + class_after(t, a, alphanumeric(t[a]))
    } else {
        a
    }
}

/// The text without the characters `from..to`.
pub open spec fn cut(t: Seq<char>, from: int, to: int) -> Seq<char> {
    t.subrange(0, from) + t.subrange(to, t.len() as int)
}

proof fn lemma_space_before(t: Seq<char>, c: int)
    requires
        0 <= c <= t.len(),
    ensures
        space_before(t, c) <= c,
        forall|i: int| c - space_before(t, c) <= i < c ==> whitespace(#[trigger] t[i]),
        c - space_before(t, c) > 0 ==> !whitespace(t[c - space_before(t, c) - 1]),
    decreases c,
{
    if c > 0 && whitespace(t[c - 1]) {
        lemma_space_before(t, c - 1);
    }
}

proof fn lemma_class_before(t: Seq<char>, c: int, cls: bool)
    requires
        0 <= c <= t.len(),
    ensures
        class_before(t, c, cls) <= c,
        forall|k: int| c - class_before(t, c, cls) <= k < c ==> !whitespace(#[trigger] t[k]) && alphanumeric(t[k]) == cls,
        c - class_before(t, c, cls) > 0 ==> whitespace(t[c - class_before(t, c, cls) - 1])
            || alphanumeric(t[c - class_before(t, c, cls) - 1]) != cls,
    decreases c,
{
    if c > 0 && !whitespace(t[c - 1]) && alphanumeric(t[c - 1]) == cls {
        lemma_class_before(t, c - 1, cls);
    }
}

proof fn lemma_space_after(t: Seq<char>, c: int)
    requires
        0 <= c <= t.len(),
    ensures
        c + space_after(t, c) <= t.len(),
        c + space_after(t, c) < t.len() ==> !whitespace(t[c + space_after(t, c)]),
        forall|k: int| c <= k < c + space_after(t, c) ==> whitespace(#[trigger] t[k]),
    decreases t.len() - c,
{
    if c < t.len() && whitespace(t[c]) {
        lemma_space_after(t, c + 1);
    }
}

proof fn lemma_class_after(t: Seq<char>, c: int, cls: bool)
    requires
        0 <= c <= t.len(),
    ensures
        c + class_after(t, c, cls) <= t.len(),
        forall|k: int| c <= k < c + class_after(t, c, cls) ==> !whitespace(#[trigger] t[k]) && alphanumeric(t[k]) == cls,
        c + class_after(t, c, cls) < t.len() ==> whitespace(t[c + class_after(t, c, cls)])
            || alphanumeric(t[c + class_after(t, c, cls)]) != cls,
    decreases t.len() - c,
{
    if c < t.len() && !whitespace(t[c]) && alphanumeric(t[c]) == cls {
        lemma_class_after(t, c + 1, cls);
    }
}

/// `c..e` is a word after `c`: a run `c..a` of whitespace, and then, when
/// the text goes on, the whole run `a..e` (at least one character) of
/// non-whitespace characters of the class (alphanumeric or not) of `t[a]`.
pub open spec fn spans_word_after(t: Seq<char>, c: int, a: int, e: int) -> bool {
    &&& c <= a <= e
    &&& forall|k: int| c <= k < a ==> whitespace(#[trigger] t[k])
    &&& a == t.len() ==> e == a
    &&& a < t.len() ==> {
        &&& !whitespace(t[a])
        &&& a < e <= t.len()
        &&& forall|k: int| a <= k < e ==> !whitespace(#[trigger] t[k]) && alphanumeric(t[k]) == alphanumeric(t[a])
        &&& e < t.len() ==> whitespace(t[e]) || alphanumeric(t[e]) != alphanumeric(t[a])
    }
}

/// `b..c` is a word before `c`: a run `a..c` of whitespace, and before it,
/// when there is text, the whole run `b..a` (at least one character) of
/// non-whitespace characters of the class of `t[a - 1]`.
pub open spec fn spans_word_before(t: Seq<char>, b: int, a: int, c: int) -> bool {
    &&& b <= a <= c
    &&& forall|k: int| a <= k < c ==> whitespace(#[trigger] t[k])
    &&& a == 0 ==> b == 0
    &&& a > 0 ==> {
        &&& !whitespace(t[a - 1])
        &&& 0 <= b < a
        &&& forall|k: int| b <= k < a ==> !whitespace(#[trigger] t[k]) && alphanumeric(t[k]) == alphanumeric(t[a - 1])
        &&& b > 0 ==> whitespace(t[b - 1]) || alphanumeric(t[b - 1]) != alphanumeric(t[a - 1])
    }
}

/// Control-Delete deletes a word: from the cursor, the run of whitespace,
/// and then the whole run of non-whitespace characters of the class
/// (alphanumeric or not) of the first character after it. Before a
/// character, at least that character goes; the cursor stays.
pub proof fn lemma_ctrl_delete_deletes_a_word(t: Seq<char>, c: int)
    requires
        0 <= c <= t.len(),
    ensures
        c <= word_end(t, c) <= t.len(),
        c < t.len() ==> c < word_end(t, c),
        exists|a: int| #[trigger] spans_word_after(t, c, a, word_end(t, c)),
        c < t.len() ==> pressed(t, c, EditKey::Delete, true) == (
            t.subrange(0, c) + t.subrange(word_end(t, c), t.len() as int),
            c,
            false,
        ),
        c < t.len() ==> pressed(t, c, EditKey::Delete, true).0.len() < t.len(),
{
    lemma_space_after(t, c);
    let a = c + space_after(t, c);
    if a < t.len() {
        lemma_class_after(t, a, alphanumeric(t[a]));
        assert(class_after(t, a, alphanumeric(t[a])) > 0);
    }
    assert(spans_word_after(t, c, a, word_end(t, c)));
}

/// Control-Backspace deletes a word: before the cursor, the run of
/// whitespace, and then the whole run of non-whitespace characters of the
/// class (alphanumeric or not) of the character before it. After a
/// character, at least that character goes, and the cursor moves to where
/// the deletion starts.
pub proof fn lemma_ctrl_backspace_deletes_a_word(t: Seq<char>, c: int)
    requires
        0 <= c <= t.len(),
    ensures
        0 <= word_start(t, c) <= c,
        c > 0 ==> word_start(t, c) < c,
        exists|a: int| #[trigger] spans_word_before(t, word_start(t, c), a, c),
        c > 0 ==> pressed(t, c, EditKey::Backspace, true) == (
            t.subrange(0, word_start(t, c)) + t.subrange(c, t.len() as int),
            word_start(t, c),
            false,
        ),
{
    lemma_space_before(t, c);
    let a = c - space_before(t, c);
    if a > 0 {
        lemma_class_before(t, a, alphanumeric(t[a - 1]));
        assert(class_before(t, a, alphanumeric(t[a - 1])) > 0);
    }
    assert(spans_word_before(t, word_start(t, c), a, c));
}

/// The arrow keys move the cursor by one character and change no text:
/// Left then Right, away from the start, and Right then Left, away from
/// the end, come back to the same place; at the ends the cursor stays.
/// Backspace without control takes out just the character before the
/// cursor, and Escape gives up the focus and changes nothing.
pub proof fn lemma_plain_keys(t: Seq<char>, c: int, ctrl: bool, ctrl2: bool)
    requires
        0 <= c <= t.len(),
    ensures
        pressed(t, c, EditKey::ArrowLeft, ctrl).0 == t,
        pressed(t, c, EditKey::ArrowRight, ctrl).0 == t,
        c > 0 ==> pressed(t, c, EditKey::ArrowLeft, ctrl).1 == c - 1
            && pressed(t, c - 1, EditKey::ArrowRight, ctrl2).1 == c,
        c < t.len() ==> pressed(t, c, EditKey::ArrowRight, ctrl).1 == c + 1
            && pressed(t, c + 1, EditKey::ArrowLeft, ctrl2).1 == c,
        c == 0 ==> pressed(t, c, EditKey::ArrowLeft, ctrl).1 == 0,
        c == t.len() ==> pressed(t, c, EditKey::ArrowRight, ctrl).1 == c,
        c > 0 ==> pressed(t, c, EditKey::Backspace, false) == (t.remove(c - 1), c - 1, false),
        c == 0 ==> pressed(t, c, EditKey::Backspace, ctrl) == (t, c, false),
        pressed(t, c, EditKey::Escape, ctrl) == (t, c, true),
{
    if c > 0 {
        assert(cut(t, c - 1, c) =~= t.remove(c - 1));
    }
}

/// Removes the characters `from..to` of a text.
fn remove_span(v: &mut Vec<char>, from: usize, to: usize)
    requires
        from <= to <= old(v)@.len(),
    ensures
        final(v)@ == cut(old(v)@, from as int, to as int),
{
    let mut n = to - from;
    while n > 0
        invariant
            from <= to <= old(v)@.len(),
            n <= to - from,
            v@ == old(v)@.subrange(0, from as int) + old(v)@.subrange(from + (to - from - n), old(v)@.len() as int),
        decreases n,
    {
        v.remove(from);
        n = n - 1;
        proof {
            assert(v@ =~= old(v)@.subrange(0, from as int) + old(v)@.subrange(from + (to - from - n), old(v)@.len() as int));
        }
    }
}

/// The start of the word that control-backspace deletes from `c`.
fn find_word_start(t: &Vec<char>, c: usize) -> (r: usize)
    requires
        c <= t@.len(),
    ensures
        r == word_start(t@, c as int),
        r <= c,
{
    proof {
        lemma_space_before(t@, c as int);
    }
    let mut a = c;
    while a > 0 && is_whitespace(t[a - 1])
        invariant
            a <= c <= t@.len(),
            space_before(t@, c as int) == (c - a) + space_before(t@, a as int),
        decreases a,
    {
        a = a - 1;
    }
    proof {
        assert(space_before(t@, a as int) == 0);
    }
    if a == 0 {
        return a;
    }
    let cls = is_alphanumeric(t[a - 1]);
    let ghost a0 = a;
    proof {
        lemma_class_before(t@, a0 as int, cls);
    }
    let mut b = a;
    while b > 0 && !is_whitespace(t[b - 1]) && is_alphanumeric(t[b - 1]) == cls
        invariant
            b <= a0 <= c <= t@.len(),
            class_before(t@, a0 as int, cls) == (a0 - b) + class_before(t@, b as int, cls),
        decreases b,
    {
        b = b - 1;
    }
    b
}

/// The end of the word that control-delete deletes from `c`.
fn find_word_end(t: &Vec<char>, c: usize) -> (r: usize)
    requires
        c <= t@.len(),
    ensures
        r == word_end(t@, c as int),
        c <= r <= t@.len(),
{
    proof {
        lemma_space_after(t@, c as int);
    }
    let mut a = c;
    while a < t.len() && is_whitespace(t[a])
        invariant
            c <= a <= t@.len(),
            space_after(t@, c as int) == (a - c) + space_after(t@, a as int),
        decreases t@.len() - a,
    {
        a = a + 1;
    }
    proof {
        assert(space_after(t@, a as int) == 0);
    }
    if a == t.len() {
        return a;
    }
    let cls = is_alphanumeric(t[a]);
    let ghost a0 = a;
    proof {
        lemma_class_after(t@, a0 as int, cls);
    }
    let mut b = a;
    while b < t.len() && !is_whitespace(t[b]) && is_alphanumeric(t[b]) == cls
        invariant
            c <= a0 <= b <= t@.len(),
            class_after(t@, a0 as int, cls) == (b - a0) + class_after(t@, b as int, cls),
        decreases t@.len() - b,
    {
        b = b + 1;
    }
    b
}

/// What a key press does to a text and its cursor: the new text, the new
/// cursor, and whether the field gives up the focus.
pub open spec fn pressed(t: Seq<char>, c: int, key: EditKey, ctrl: bool) -> (Seq<char>, int, bool) {
    match key {
        EditKey::ArrowLeft => if c > 0 {
            (t, c - 1, false)
        } else {
            (t, c, false)
        },
        EditKey::ArrowRight => if c < t.len() {
            (t, c + 1, false)
        } else {
            (t, c, false)
        },
        EditKey::Backspace => if c > 0 && ctrl {
            (cut(t, word_start(t, c), c), word_start(t, c), false)
        } else if c > 0 {
            (cut(t, c - 1, c), c - 1, false)
        } else {
            (t, c, false)
        },
        EditKey::Delete => if c < t.len() && ctrl {
            (cut(t, c, word_end(t, c)), c, false)
        } else {
            (t, c, false)
        },
        EditKey::Escape => (t, c, true),
        EditKey::Other => (t, c, false),
    }
}

/// The text after `s` is typed at the cursor `c`, and the cursor after it.
pub open spec fn typed(t: Seq<char>, c: int, s: Seq<char>) -> (Seq<char>, int) {
    let p = printable(s);
    (t.subrange(0, c) + p + t.subrange(c, t.len() as int), c + p.len())
}

/// Typing a character that is not a control character, and then pressing
/// Backspace, gives back the text and the cursor.
pub proof fn lemma_backspace_undoes_typing(t: Seq<char>, c: int, ch: char)
    requires
        0 <= c <= t.len(),
        !control(ch),
    ensures
        pressed(typed(t, c, seq![ch]).0, typed(t, c, seq![ch]).1, EditKey::Backspace, false) == (t, c, false),
{
    reveal(Seq::filter);
    assert(seq![ch].drop_last() =~= Seq::<char>::empty());
    assert(printable(seq![ch]) =~= seq![ch]);
    let t2 = typed(t, c, seq![ch]).0;
    let c2 = typed(t, c, seq![ch]).1;
    assert(c2 == c + 1);
    assert(cut(t2, c2 - 1, c2) =~= t);
}

impl TextEdit {
    /// The cursor is within the text.
    pub open spec fn wf(&self) -> bool {
        self.cursor <= self.text@.len()
    }

    /// A field holding `initial`, with the cursor at the start.
    pub fn new(initial: Vec<char>, placeholder: Vec<char>) -> (r: Self)
        ensures
            r.text@ == initial@,
            r.placeholder@ == placeholder@,
            r.cursor == 0,
            r.wf(),
    {
        TextEdit { text: initial, placeholder, cursor: 0 }
    }

    /// What the field shows: its text, or the placeholder while it is empty.
    pub fn displayed(&self) -> (r: &Vec<char>)
        ensures
            r@ == if self.text@.len() == 0 {
                self.placeholder@
            } else {
                self.text@
            },
    {
        if self.text.len() == 0 {
            &self.placeholder
        } else {
            &self.text
        }
    }

    /// Types `s` at the cursor, without its control characters, and moves the
    /// cursor past it.
    pub fn type_text(&mut self, s: &Vec<char>)
        requires
            old(self).wf(),
            old(self).text@.len() + s@.len() <= usize::MAX,
        ensures
            (final(self).text@, final(self).cursor as int) == typed(old(self).text@, old(self).cursor as int, s@),
            final(self).placeholder == old(self).placeholder,
            final(self).wf(),
    {
        let ghost t0 = self.text@;
        let ghost c0 = self.cursor as int;
        let mut k: usize = 0;
        while k < s.len()
            invariant
                0 <= c0 <= self.cursor,
                self.text@ == t0.subrange(0, c0) + printable(s@.take(k as int)) + t0.subrange(c0, t0.len() as int),
                self.cursor == c0 + printable(s@.take(k as int)).len(),
                self.placeholder == old(self).placeholder,
                c0 <= t0.len(),
                t0.len() + s@.len() <= usize::MAX,
                k <= s@.len(),
            decreases s.len() - k,
        {
            let ch = s[k];
            proof {
                assert(s@.take(k as int + 1) =~= s@.take(k as int).push(ch));
                s@.take(k as int).lemma_filter_push(ch, |c: char| !control(c));
                s@.take(k as int).lemma_filter_len(|c: char| !control(c));
            }
            let ghost p0 = printable(s@.take(k as int));
            let ghost before = self.text@;
            if !is_control(ch) {
                self.text.insert(self.cursor, ch);
                proof {
                    let a = t0.subrange(0, c0);
                    let b = t0.subrange(c0, t0.len() as int);
                    assert(before == a + p0 + b);
                    assert(self.text@ =~= a + p0.push(ch) + b);
                }
                self.cursor = self.cursor + 1;
            }
            k = k + 1;
        }
        proof {
            assert(s@.take(k as int) =~= s@);
        }
    }

    /// Handles a key press; returns whether the field gives up the focus.
    pub fn press(&mut self, key: EditKey, ctrl: bool) -> (unfocus: bool)
        requires
            old(self).wf(),
        ensures
            (final(self).text@, final(self).cursor as int, unfocus) == pressed(
                old(self).text@,
                old(self).cursor as int,
                key,
                ctrl,
            ),
            final(self).placeholder == old(self).placeholder,
            final(self).wf(),
    {
        let ghost t = self.text@;
        match key {
            EditKey::ArrowLeft => {
                if self.cursor > 0 {
                    self.cursor = self.cursor - 1;
                }
                false
            },
            EditKey::ArrowRight => {
                if self.cursor < self.text.len() {
                    self.cursor = self.cursor + 1;
                }
                false
            },
            EditKey::Backspace => {
                if self.cursor > 0 && ctrl {
                    let start = find_word_start(&self.text, self.cursor);
                    remove_span(&mut self.text, start, self.cursor);
                    self.cursor = start;
                } else if self.cursor > 0 {
                    let c = self.cursor;
                    remove_span(&mut self.text, c - 1, c);
                    self.cursor = c - 1;
                }
                false
            },
            EditKey::Delete => {
                if self.cursor < self.text.len() && ctrl {
                    let end = find_word_end(&self.text, self.cursor);
                    let c = self.cursor;
                    remove_span(&mut self.text, c, end);
                }
                false
            },
            EditKey::Escape => true,
            EditKey::Other => false,
        }
    }

    /// Handles a keyboard event: a release does nothing; a press types its
    /// text (if it has any) and then acts as its key. Returns whether the
    /// field gives up the focus.
    pub fn input(&mut self, released: bool, text: Option<&Vec<char>>, key: EditKey, ctrl: bool) -> (unfocus: bool)
        requires
            old(self).wf(),
            text matches Some(s) ==> old(self).text@.len() + s@.len() <= usize::MAX,
        ensures
            released ==> final(self).text@ == old(self).text@ && final(self).cursor == old(self).cursor && !unfocus,
            !released ==> ({
                let (t1, c1) = match text {
                    Some(s) => typed(old(self).text@, old(self).cursor as int, s@),
                    None => (old(self).text@, old(self).cursor as int),
                };
                (final(self).text@, final(self).cursor as int, unfocus) == pressed(t1, c1, key, ctrl)
            }),
            final(self).placeholder == old(self).placeholder,
            final(self).wf(),
    {
        if released {
            return false;
        }
        match text {
            Some(s) => self.type_text(s),
            None => {},
        }
        self.press(key, ctrl)
    }
}

} // verus!
