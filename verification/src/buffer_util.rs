//! Texts of the editing panes: the message as the editor shows it, the label of a
//! changed file, and the smallest edit that turns one text into another.
use crate::model::{ChangeKind, FileChange};
use crate::text;
use vstd::prelude::*;

verus! {

/// `s` without its trailing newlines.
pub open spec fn without_final_newlines(s: Seq<char>) -> Seq<char>
    decreases s.len(),
{
    if s.len() > 0 && s.last() == '\n' {
        without_final_newlines(s.drop_last())
    } else {
        s
    }
}

/// A commit message as the editor shows it: without its trailing newlines.
pub fn message_for_editor(description: &str) -> (r: &str)
    ensures
        r@ == without_final_newlines(description@),
{
    let v = text::chars_of(description);
    let mut n: usize = v.len();
    assert(v@.take(n as int) =~= v@);
    while n > 0 && v[n - 1] == '\n'
        invariant
            n <= v@.len(),
            without_final_newlines(v@) == without_final_newlines(v@.take(n as int)),
        decreases n,
    {
        assert(v@.take(n as int).drop_last() =~= v@.take(n - 1));
        n -= 1;
    }
    assert(v@.take(n as int) =~= v@.subrange(0, n as int));
    description.substring_char(0, n)
}

/// What the clean-up of a save leaves of a message. The history engine cleans; its
/// result is taken as it comes.
#[derive(Clone, Debug, PartialEq, Eq)]
pub struct CleanedMessage {
    pub text: String,
}

/// Compares two cleaned messages, what a save would make of the edited text and of
/// the stored one: whether the edit is one in substance. Neither the newlines that
/// are dropped for display nor white space that the clean-up strips count.
pub fn message_differs(cleaned_edited: &CleanedMessage, cleaned_stored: &CleanedMessage) -> (r:
    bool)
    ensures
        r == (cleaned_edited.text@ != cleaned_stored.text@),
{
    !text::same_text(cleaned_edited.text.as_str(), cleaned_stored.text.as_str())
}

/// The sign of a kind of change.
pub open spec fn sigil(kind: ChangeKind) -> Seq<char> {
    match kind {
        ChangeKind::Added => "+"@,
        ChangeKind::Modified => "~"@,
        ChangeKind::Removed => "-"@,
    }
}

/// The label of a changed file: the sign of its change and its path.
pub fn change_label(change: &FileChange) -> (r: String)
    ensures
        r@ == sigil(change.kind) + " "@ + change.path@,
{
    let mut v = text::chars_of(
        match change.kind {
            ChangeKind::Added => "+",
            ChangeKind::Modified => "~",
            ChangeKind::Removed => "-",
        },
    );
    text::push_text(&mut v, " ");
    text::push_text(&mut v, change.path.as_str());
    text::string_of(&v)
}

/// How many characters `a` and `b` have in common at their beginning.
pub open spec fn common_head(a: Seq<char>, b: Seq<char>) -> nat
    decreases a.len(),
{
    if a.len() > 0 && b.len() > 0 && a[0] == b[0] {
        1 + common_head(a.skip(1), b.skip(1))
    } else {
        0
    }
}

/// How many characters `a` and `b` have in common at their end.
pub open spec fn common_tail(a: Seq<char>, b: Seq<char>) -> nat
    decreases a.len(),
{
    if a.len() > 0 && b.len() > 0 && a.last() == b.last() {
        1 + common_tail(a.drop_last(), b.drop_last())
    } else {
        0
    }
}

/// An edit of a text: its characters from `start` to `end` become `middle`.
#[derive(Clone, Debug, PartialEq, Eq)]
pub struct Splice {
    pub start: usize,
    pub end: usize,
    pub middle: String,
}

/// `s` after the edit.
pub open spec fn spliced(s: Seq<char>, e: Splice) -> Seq<char> {
    s.take(e.start as int) + e.middle@ + s.skip(e.end as int)
}

/// Whether `e` is the edit from `a` to `b` that leaves alone what they have in
/// common: first at the beginning, then, of the rest, at the end.
pub open spec fn smallest_splice(a: Seq<char>, b: Seq<char>, e: Splice) -> bool {
    let head = common_head(a, b) as int;
    let tail = common_tail(a.skip(head), b.skip(head)) as int;
    &&& e.start == head
    &&& e.end == a.len() - tail
    &&& e.middle@ == b.subrange(head, b.len() - tail)
}

proof fn lemma_common_head(a: Seq<char>, b: Seq<char>)
    ensures
        common_head(a, b) <= a.len(),
        common_head(a, b) <= b.len(),
        a.take(common_head(a, b) as int) == b.take(common_head(a, b) as int),
    decreases a.len(),
{
    if a.len() > 0 && b.len() > 0 && a[0] == b[0] {
        let a1 = a.skip(1);
        let b1 = b.skip(1);
        lemma_common_head(a1, b1);
        let n = common_head(a1, b1) as int;
        assert(a.take(n + 1) =~= seq![a[0]] + a1.take(n));
        assert(b.take(n + 1) =~= seq![b[0]] + b1.take(n));
    } else {
        assert(a.take(0) =~= b.take(0));
    }
}

proof fn lemma_common_tail(a: Seq<char>, b: Seq<char>)
    ensures
        common_tail(a, b) <= a.len(),
        common_tail(a, b) <= b.len(),
        a.skip(a.len() - common_tail(a, b)) == b.skip(b.len() - common_tail(a, b)),
    decreases a.len(),
{
    if a.len() > 0 && b.len() > 0 && a.last() == b.last() {
        let a1 = a.drop_last();
        let b1 = b.drop_last();
        lemma_common_tail(a1, b1);
        let n = common_tail(a1, b1) as int;
        assert(a.skip(a.len() - n - 1) =~= a1.skip(a1.len() - n).push(a.last()));
        assert(b.skip(b.len() - n - 1) =~= b1.skip(b1.len() - n).push(b.last()));
    } else {
        assert(a.skip(a.len() as int) =~= b.skip(b.len() as int));
    }
}

/// The edit that turns `old_text` into `new_text` and leaves alone what both have
/// in common at the beginning and at the end; `None` where they are equal.
pub fn splice_text(old_text: &str, new_text: &str) -> (r: Option<Splice>)
    ensures
        r is None <==> old_text@ == new_text@,
        r matches Some(e) ==> smallest_splice(old_text@, new_text@, e),
{
    let a = text::chars_of(old_text);
    let b = text::chars_of(new_text);
    if text::same_chars(&a, &b) {
        return None;
    }
    let mut head: usize = 0;
    assert(a@.skip(0) =~= a@);
    assert(b@.skip(0) =~= b@);
    while head < a.len() && head < b.len() && a[head] == b[head]
        invariant
            head <= a@.len(),
            head <= b@.len(),
            common_head(a@, b@) == head + common_head(a@.skip(head as int), b@.skip(head as int)),
        decreases a.len() - head,
    {
        assert(a@.skip(head as int)[0] == a@[head as int]);
        assert(b@.skip(head as int)[0] == b@[head as int]);
        assert(a@.skip(head as int).skip(1) =~= a@.skip(head + 1));
        assert(b@.skip(head as int).skip(1) =~= b@.skip(head + 1));
        head += 1;
    }
    assert(common_head(a@, b@) == head) by {
        if head < a@.len() && head < b@.len() {
            assert(a@.skip(head as int)[0] == a@[head as int]);
            assert(b@.skip(head as int)[0] == b@[head as int]);
        }
    }
    let ghost ar = a@.skip(head as int);
    let ghost br = b@.skip(head as int);
    let n: usize = a.len();
    let m: usize = b.len();
    let mut tail: usize = 0;
    assert(ar.take(ar.len() as int) =~= ar);
    assert(br.take(br.len() as int) =~= br);
    while tail < n - head && tail < m - head && a[n - 1 - tail] == b[m - 1 - tail]
        invariant
            head <= n,
            head <= m,
            n == a@.len(),
            m == b@.len(),
            tail <= n - head,
            tail <= m - head,
            ar == a@.skip(head as int),
            br == b@.skip(head as int),
            common_tail(ar, br) == tail + common_tail(
                ar.take(ar.len() - tail),
                br.take(br.len() - tail),
            ),
        decreases n - head - tail,
    {
        let ghost at = ar.take(ar.len() - tail);
        let ghost bt = br.take(br.len() - tail);
        assert(at.last() == a@[n - 1 - tail]);
        assert(bt.last() == b@[m - 1 - tail]);
        assert(at.drop_last() =~= ar.take(ar.len() - (tail + 1)));
        assert(bt.drop_last() =~= br.take(br.len() - (tail + 1)));
        tail += 1;
    }
    assert(common_tail(ar, br) == tail) by {
        let at = ar.take(ar.len() - tail);
        let bt = br.take(br.len() - tail);
        if tail < n - head && tail < m - head {
            assert(at.last() == a@[n - 1 - tail]);
            assert(bt.last() == b@[m - 1 - tail]);
        }
    }
    let middle = text::string_of(&text::slice_of(&b, head, m - tail));
    Some(Splice { start: head, end: n - tail, middle })
}

/// The smallest edit turns the old text into the new one.
pub proof fn law_splice_gives_the_new_text(a: Seq<char>, b: Seq<char>, e: Splice)
    requires
        smallest_splice(a, b, e),
    ensures
        spliced(a, e) == b,
{
    let head = common_head(a, b) as int;
    let ar = a.skip(head);
    let br = b.skip(head);
    lemma_common_head(a, b);
    lemma_common_tail(ar, br);
    let tail = common_tail(ar, br) as int;
    assert(a.skip(a.len() - tail) =~= ar.skip(ar.len() - tail));
    assert(b.skip(b.len() - tail) =~= br.skip(br.len() - tail));
    assert(spliced(a, e) =~= b.take(head) + b.subrange(head, b.len() - tail) + b.skip(
        b.len() - tail,
    ));
    assert(spliced(a, e) =~= b);
}

/// The message that the editor shows ends in no newline, and only newlines were
/// taken away.
pub proof fn law_editor_drops_only_newlines(s: Seq<char>)
    ensures
        without_final_newlines(s).len() > 0 ==> without_final_newlines(s).last() != '\n',
        without_final_newlines(s).is_prefix_of(s),
        forall|i: int| without_final_newlines(s).len() <= i < s.len() ==> #[trigger] s[i] == '\n',
    decreases s.len(),
{
    if s.len() > 0 && s.last() == '\n' {
        law_editor_drops_only_newlines(s.drop_last());
        let t = without_final_newlines(s);
        assert(s.subrange(0, t.len() as int) =~= s.drop_last().subrange(0, t.len() as int));
        assert forall|i: int| t.len() <= i < s.len() implies #[trigger] s[i] == '\n' by {
            if i < s.len() - 1 {
                assert(s.drop_last()[i] == s[i]);
            }
        }
    } else {
        assert(s.subrange(0, s.len() as int) =~= s);
    }
}

/// The edit that a splice makes is the smallest: what it takes out and what it puts in
/// differ in their first character and, unless one of them is used up, in their last.
pub proof fn law_splice_leaves_alone_what_is_common(
    old_text: &str,
    new_text: &str,
    r: Option<Splice>,
)
    requires
        call_ensures(splice_text, (old_text, new_text), r),
    ensures
        r is None <==> old_text@ == new_text@,
        r matches Some(e) ==> {
            let out = old_text@.subrange(e.start as int, e.end as int);
            &&& e.start <= e.end <= old_text@.len()
            &&& old_text@.take(e.start as int) == new_text@.take(e.start as int)
            &&& old_text@.skip(e.end as int) == new_text@.skip(e.start + e.middle@.len())
            &&& out.len() > 0 && e.middle@.len() > 0 ==> out[0] != e.middle@[0] && out.last()
                != e.middle@.last()
        },
{
    if let Some(e) = r {
        let (a, b) = (old_text@, new_text@);
        let head = common_head(a, b) as int;
        lemma_heads_part(a, b);
        let (x, y) = (a.skip(head), b.skip(head));
        let tail = common_tail(x, y) as int;
        lemma_tails_part(x, y);
        let out = a.subrange(head, a.len() - tail);
        assert(e.middle@ == b.subrange(head, b.len() - tail));
        assert(a.take(head) =~= b.take(head));
        assert(a.skip(a.len() - tail) =~= x.skip(x.len() - tail));
        assert(b.skip(b.len() - tail) =~= y.skip(y.len() - tail));
        if out.len() > 0 && e.middle@.len() > 0 {
            assert(out[0] == a[head] && e.middle@[0] == b[head]);
            assert(out.last() == x[x.len() - tail - 1]);
            assert(e.middle@.last() == y[y.len() - tail - 1]);
        }
    }
}

proof fn lemma_heads_part(a: Seq<char>, b: Seq<char>)
    ensures
        common_head(a, b) <= a.len(),
        common_head(a, b) <= b.len(),
        forall|i: int| 0 <= i < common_head(a, b) ==> #[trigger] a[i] == b[i],
        common_head(a, b) < a.len() && common_head(a, b) < b.len() ==> a[common_head(a, b) as int]
            != b[common_head(a, b) as int],
    decreases a.len(),
{
    if a.len() > 0 && b.len() > 0 && a[0] == b[0] {
        let (x, y) = (a.skip(1), b.skip(1));
        lemma_heads_part(x, y);
        assert forall|i: int| 0 <= i < common_head(a, b) implies #[trigger] a[i] == b[i] by {
            if i > 0 {
                assert(x[i - 1] == a[i]);
                assert(y[i - 1] == b[i]);
            }
        }
        let n = common_head(x, y) as int;
        if n < x.len() && n < y.len() {
            assert(x[n] == a[n + 1] && y[n] == b[n + 1]);
        }
    }
}

proof fn lemma_tails_part(a: Seq<char>, b: Seq<char>)
    ensures
        common_tail(a, b) <= a.len(),
        common_tail(a, b) <= b.len(),
        a.skip(a.len() - common_tail(a, b)) == b.skip(b.len() - common_tail(a, b)),
        common_tail(a, b) < a.len() && common_tail(a, b) < b.len() ==> a[a.len() - common_tail(a, b)
            - 1] != b[b.len() - common_tail(a, b) - 1],
    decreases a.len(),
{
    let n = common_tail(a, b) as int;
    if a.len() > 0 && b.len() > 0 && a.last() == b.last() {
        let (x, y) = (a.drop_last(), b.drop_last());
        lemma_tails_part(x, y);
        assert(a.skip(a.len() - n) =~= x.skip(x.len() - (n - 1)).push(a.last()));
        assert(b.skip(b.len() - n) =~= y.skip(y.len() - (n - 1)).push(b.last()));
    } else {
        assert(a.skip(a.len() as int) =~= b.skip(b.len() as int));
    }
}

} // verus!
