//! Incremental tailing of one growing text file: turning raw growth of the
//! file into logical lines, with truncation handling.
use vstd::prelude::*;
use vstd::string::*;

verus! {

/// One batch of logical lines read from a single watched file.
pub struct LogsMessage {
    pub lines: Vec<String>,
    pub file_id: String,
}

/// Index of the first newline character of `s`, or `s.len()` if there is none.
pub open spec fn first_nl(s: Seq<char>) -> nat
    decreases s.len(),
{
    if s.len() == 0 {
        0
    } else if s[0] == '\n' {
        0
    } else {
        1 + first_nl(s.drop_first())
    }
}

/// A newline-terminated segment loses one trailing carriage return.
pub open spec fn strip_cr(s: Seq<char>) -> Seq<char> {
    if s.len() > 0 && s[s.len() - 1] == '\r' {
        s.drop_last()
    } else {
        s
    }
}

/// A segment becomes a logical line only if it is non-empty.
pub open spec fn lift_line(s: Seq<char>) -> Seq<Seq<char>> {
    if s.len() == 0 {
        Seq::empty()
    } else {
        seq![s]
    }
}

/// The logical lines of a piece of text: the non-empty segments delimited by
/// newlines, each newline-terminated segment stripped of one trailing
/// carriage return; a final segment without a terminator is kept as it is.
pub open spec fn split_lines(text: Seq<char>) -> Seq<Seq<char>>
    decreases text.len(),
{
    if text.len() == 0 {
        Seq::empty()
    } else {
        let i = first_nl(text);
        if i >= text.len() {
            lift_line(text)
        } else {
            lift_line(strip_cr(text.take(i as int))) + split_lines(text.skip(i + 1 as int))
        }
    }
}

proof fn lemma_first_nl_at(s: Seq<char>, k: int)
    requires
        0 <= k <= s.len(),
        forall|j: int| 0 <= j < k ==> s[j] != '\n',
        k < s.len() ==> s[k] == '\n',
    ensures
        first_nl(s) == k,
    decreases k,
{
    if k == 0 {
    } else {
        assert(s[0] != '\n');
        lemma_first_nl_at(s.drop_first(), k - 1);
    }
}

pub(crate) proof fn lemma_deep_view_push(v1: Seq<String>, v2: Seq<String>, x: String)
    requires
        v2 == v1.push(x),
    ensures
        Seq::new(v2.len(), |i: int| v2[i].deep_view()) == Seq::new(
            v1.len(),
            |i: int| v1[i].deep_view(),
        ).push(x@),
{
    assert(Seq::new(v2.len(), |i: int| v2[i].deep_view()) =~= Seq::new(
        v1.len(),
        |i: int| v1[i].deep_view(),
    ).push(x@));
}

/// Splits freshly read text into its logical lines: segments delimited by
/// newlines, each terminated segment stripped of one trailing carriage
/// return, zero-length segments dropped, and a final unterminated segment
/// kept whole.
pub fn extract_lines(text: &str) -> (lines: Vec<String>)
    ensures
        lines.deep_view() == split_lines(text@),
{
    let n = text.unicode_len();
    let mut lines: Vec<String> = Vec::new();
    let mut start: usize = 0;
    let mut i: usize = 0;
    proof {
        assert(text@.skip(0) =~= text@);
        assert(lines.deep_view() =~= Seq::<Seq<char>>::empty());
        assert(lines.deep_view() + split_lines(text@) =~= split_lines(text@));
    }
    while i < n
        invariant
            start <= i <= n,
            n == text@.len(),
            forall|j: int| start <= j < i ==> text@[j] != '\n',
            split_lines(text@) == lines.deep_view() + split_lines(text@.skip(start as int)),
        decreases n - i,
    {
        let c = text.get_char(i);
        if c == '\n' {
            let end = if i > start && text.get_char(i - 1) == '\r' {
                i - 1
            } else {
                i
            };
            proof {
                let rest = text@.skip(start as int);
                lemma_first_nl_at(rest, i - start);
                assert(rest.take(i - start) =~= text@.subrange(start as int, i as int));
                assert(strip_cr(rest.take(i - start)) =~= text@.subrange(
                    start as int,
                    end as int,
                ));
                assert(rest.skip(i - start + 1) =~= text@.skip(i + 1));
            }
            if end > start {
                let seg = text.substring_char(start, end);
                let owned = seg.to_owned();
                let ghost lines0 = lines@;
                let ghost ow: String = owned;
                lines.push(owned);
                proof {
                    lemma_deep_view_push(lines0, lines@, ow);
                    assert(lines.deep_view() + split_lines(text@.skip(i + 1))
                        =~= (Seq::new(lines0.len(), |j: int| lines0[j].deep_view())
                        + lift_line(text@.subrange(start as int, end as int))) + split_lines(
                        text@.skip(i + 1),
                    ));
                }
            } else {
                proof {
                    assert(lift_line(text@.subrange(start as int, end as int)) =~= Seq::<
                        Seq<char>,
                    >::empty());
                }
            }
            start = i + 1;
        }
        i += 1;
    }
    proof {
        let rest = text@.skip(start as int);
        lemma_first_nl_at(rest, n - start);
        if start == n {
            assert(rest =~= Seq::<char>::empty());
        }
    }
    if start < n {
        let seg = text.substring_char(start, n);
        let owned = seg.to_owned();
        let ghost lines0 = lines@;
        let ghost ow: String = owned;
        lines.push(owned);
        proof {
            lemma_deep_view_push(lines0, lines@, ow);
            assert(text@.skip(start as int) =~= text@.subrange(start as int, n as int));
            assert(lines.deep_view() =~= Seq::new(lines0.len(), |j: int| lines0[j].deep_view())
                + lift_line(text@.subrange(start as int, n as int)));
        }
    }
    lines
}

/// The decimal digit characters.
pub open spec fn dec_digit(d: nat) -> char
    recommends
        d < 10,
{
    if d == 0 {
        '0'
    } else if d == 1 {
        '1'
    } else if d == 2 {
        '2'
    } else if d == 3 {
        '3'
    } else if d == 4 {
        '4'
    } else if d == 5 {
        '5'
    } else if d == 6 {
        '6'
    } else if d == 7 {
        '7'
    } else if d == 8 {
        '8'
    } else {
        '9'
    }
}

/// The decimal rendering of a number, most significant digit first.
pub open spec fn dec_spec(n: nat) -> Seq<char>
    decreases n,
{
    if n < 10 {
        seq![dec_digit(n)]
    } else {
        dec_spec(n / 10).push(dec_digit(n % 10))
    }
}

fn digit_str(d: u64) -> (s: &'static str)
    requires
        d < 10,
    ensures
        s@ == seq![dec_digit(d as nat)],
{
    let s: &'static str = if d == 0 {
        "0"
    } else if d == 1 {
        "1"
    } else if d == 2 {
        "2"
    } else if d == 3 {
        "3"
    } else if d == 4 {
        "4"
    } else if d == 5 {
        "5"
    } else if d == 6 {
        "6"
    } else if d == 7 {
        "7"
    } else if d == 8 {
        "8"
    } else {
        "9"
    };
    proof {
        reveal_strlit("0");
        reveal_strlit("1");
        reveal_strlit("2");
        reveal_strlit("3");
        reveal_strlit("4");
        reveal_strlit("5");
        reveal_strlit("6");
        reveal_strlit("7");
        reveal_strlit("8");
        reveal_strlit("9");
        assert(s@ =~= seq![dec_digit(d as nat)]);
    }
    s
}

/// Renders a byte position in decimal for the truncation diagnostic.
pub fn u64_to_dec(n: u64) -> (s: String)
    ensures
        s@ == dec_spec(n as nat),
    decreases n,
{
    if n < 10 {
        digit_str(n).to_owned()
    } else {
        let mut s = u64_to_dec(n / 10);
        s.append(digit_str(n % 10));
        proof {
            assert(s@ =~= dec_spec(n as nat));
        }
        s
    }
}

/// The one diagnostic line emitted when a watched file shrinks.
pub open spec fn truncation_line(new_length: u64) -> Seq<char> {
    "filewatch: File truncated to position "@ + dec_spec(new_length as nat)
}

/// What a filesystem-change notification reported about a watched file.
/// `ModifyUnknown` and `ModifyOther` stand for modifications whose nature
/// the notification backend could not classify.
pub enum ChangeKind {
    ModifyData,
    ModifyMetadata,
    ModifyName,
    ModifyUnknown,
    ModifyOther,
    Create,
    Remove,
    Access,
    OtherEvent,
    NotifyError,
}

/// The content-change policy: a notification is acted on exactly when it
/// indicates that the file's data content may have changed. Pure metadata
/// changes, renames, and every other kind of notification are ignored, as is
/// an error reported in place of an event.
pub fn should_handle_event(kind: &ChangeKind) -> (accept: bool)
    ensures
        accept == (kind is ModifyData || kind is ModifyUnknown || kind is ModifyOther),
{
    match kind {
        ChangeKind::ModifyData => true,
        ChangeKind::ModifyUnknown => true,
        ChangeKind::ModifyOther => true,
        _ => false,
    }
}

/// The reaction of a tailer to an accepted change notification.
pub enum TailAction {
    /// The file length equals the cursor: a false positive, nothing to do.
    Ignore,
    /// The file shrank: the batch holds the one synthetic diagnostic line.
    Truncated { batch: LogsMessage },
    /// The file grew: the caller must read the bytes of `[start, end)` and
    /// hand the decoded text to `apply_growth`.
    Grow { start: u64, end: u64 },
}

/// One watched file's tailing state: its identifier (the path it was opened
/// under) and the byte offset up to which the file has already been read.
pub struct Tailer {
    pub file_id: String,
    pub cursor: u64,
}

impl Tailer {
    /// A tailer that has read nothing yet; the initial full read of
    /// `[0, current_length)` is a growth from cursor `0`.
    pub fn new(file_id: String) -> (t: Tailer)
        ensures
            t.file_id == file_id,
            t.cursor == 0,
    {
        Tailer { file_id, cursor: 0 }
    }

    /// Decides the reaction to the current file length, observed after an
    /// accepted change notification. An unchanged length is a no-op that
    /// leaves the cursor alone; a smaller length is a truncation, which emits
    /// exactly one synthetic diagnostic line and resets the cursor to the new
    /// length, so that later growth is read only from there and nothing of
    /// the lost interval is ever replayed; a larger length asks the caller to
    /// read exactly the unread interval.
    pub fn on_length(&mut self, new_length: u64) -> (action: TailAction)
        ensures
            final(self).file_id == old(self).file_id,
            new_length == old(self).cursor ==> *final(self) == *old(self) && action is Ignore,
            new_length < old(self).cursor ==> final(self).cursor == new_length && (action matches
            TailAction::Truncated { batch } && batch.file_id == old(self).file_id
                && batch.lines.deep_view() == seq![truncation_line(new_length)]),
            new_length > old(self).cursor ==> *final(self) == *old(self) && (action matches
            TailAction::Grow { start, end } && start == old(self).cursor && end == new_length),
    {
        if new_length == self.cursor {
            TailAction::Ignore
        } else if new_length < self.cursor {
            self.cursor = new_length;
            let mut msg = String::from_str("filewatch: File truncated to position ");
            let num = u64_to_dec(new_length);
            msg.append(num.as_str());
            let mut lines: Vec<String> = Vec::new();
            let ghost lines0 = lines@;
            let ghost m: String = msg;
            lines.push(msg);
            proof {
                lemma_deep_view_push(lines0, lines@, m);
                assert(lines.deep_view() =~= seq![truncation_line(new_length)]);
            }
            TailAction::Truncated {
                batch: LogsMessage { lines, file_id: self.file_id.clone() },
            }
        } else {
            TailAction::Grow { start: self.cursor, end: new_length }
        }
    }

    /// Consumes the text decoded from the freshly read interval
    /// `[cursor, new_length)`: advances the cursor to the new length and
    /// emits the logical lines of the text as one batch.
    pub fn apply_growth(&mut self, new_length: u64, text: &str) -> (batch: LogsMessage)
        requires
            old(self).cursor <= new_length,
        ensures
            final(self).file_id == old(self).file_id,
            final(self).cursor == new_length,
            batch.file_id == old(self).file_id,
            batch.lines.deep_view() == split_lines(text@),
    {
        self.cursor = new_length;
        LogsMessage { lines: extract_lines(text), file_id: self.file_id.clone() }
    }
}

/// A chunk of appended text is terminator-complete when it is empty or ends
/// with a newline.
pub open spec fn terminated(c: Seq<char>) -> bool {
    c.len() > 0 ==> c.last() == '\n'
}

proof fn lemma_first_nl_props(s: Seq<char>)
    ensures
        first_nl(s) <= s.len(),
        forall|j: int| 0 <= j < first_nl(s) ==> s[j] != '\n',
        first_nl(s) < s.len() ==> s[first_nl(s) as int] == '\n',
    decreases s.len(),
{
    if s.len() == 0 {
    } else if s[0] == '\n' {
    } else {
        lemma_first_nl_props(s.drop_first());
        assert forall|j: int| 0 <= j < first_nl(s) implies s[j] != '\n' by {
            if j > 0 {
                assert(s[j] == s.drop_first()[j - 1]);
            }
        }
    }
}

/// Splitting into logical lines distributes over concatenation at a chunk
/// boundary, provided the first chunk is terminator-complete.
pub proof fn lemma_split_append(a: Seq<char>, b: Seq<char>)
    requires
        terminated(a),
    ensures
        split_lines(a + b) == split_lines(a) + split_lines(b),
    decreases a.len(),
{
    if a.len() == 0 {
        assert(a + b =~= b);
        assert(split_lines(a) + split_lines(b) =~= split_lines(b));
    } else {
        lemma_first_nl_props(a);
        let i = first_nl(a) as int;
        assert(a.last() == '\n');
        assert(i < a.len());
        lemma_first_nl_at(a + b, i);
        assert((a + b).take(i) =~= a.take(i));
        assert((a + b).skip(i + 1) =~= a.skip(i + 1) + b);
        if a.skip(i + 1).len() > 0 {
            assert(a.skip(i + 1).last() == a.last());
        }
        lemma_split_append(a.skip(i + 1), b);
        assert(split_lines(a + b) =~= split_lines(a) + split_lines(b));
    }
}

/// Exactly-once extraction: over any sequence of appends to a watched file in
/// which every chunk before the last is terminator-complete, the logical
/// lines extracted chunk by chunk, concatenated in emission order, are
/// exactly the logical lines of the whole accumulated content read at once:
/// each line appears exactly once, in order, and none is skipped.
pub proof fn lemma_exactly_once_extraction(chunks: Seq<Seq<char>>)
    requires
        forall|k: int| 0 <= k < chunks.len() - 1 ==> terminated(#[trigger] chunks[k]),
    ensures
        chunks.map_values(|c: Seq<char>| split_lines(c)).flatten() == split_lines(
            chunks.flatten(),
        ),
    decreases chunks.len(),
{
    let mapped = chunks.map_values(|c: Seq<char>| split_lines(c));
    if chunks.len() == 0 {
        assert(chunks.flatten() =~= Seq::<char>::empty());
        assert(mapped.flatten() =~= Seq::<Seq<char>>::empty());
    } else if chunks.len() == 1 {
        chunks.lemma_flatten_one_element();
        mapped.lemma_flatten_one_element();
        assert(chunks.flatten() == chunks[0]);
        assert(mapped.flatten() =~= split_lines(chunks[0]));
    } else {
        let rest = chunks.drop_first();
        assert(forall|k: int| 0 <= k < rest.len() - 1 ==> terminated(#[trigger] rest[k]));
        lemma_exactly_once_extraction(rest);
        assert(terminated(chunks[0]));
        lemma_split_append(chunks[0], rest.flatten());
        assert(chunks.flatten() == chunks[0] + rest.flatten());
        assert(mapped.drop_first() =~= rest.map_values(|c: Seq<char>| split_lines(c)));
        assert(mapped.flatten() == mapped[0] + mapped.drop_first().flatten());
        assert(mapped.flatten() =~= split_lines(chunks.flatten()));
    }
}

} // verus!
