//! The commands of the log, and the layout of their records: a record is a
//! fixed frame around the quoted strings of its command.

use crate::error::KvsError;
use crate::json::{json_quote, json_unquote, quote, unquote};
use vstd::prelude::*;
use vstd::slice::slice_subrange;

verus! {

/// One entry of the log: `Put` gives a key a value (its record carries the
/// tag `Set`), `Remove` deletes a key.
#[derive(Debug)]
pub enum Command {
    Put { key: String, value: String },
    Remove { key: String },
}

impl Clone for Command {
    fn clone(&self) -> (r: Command)
        ensures
            r@ == self@,
    {
        match self {
            Command::Put { key, value } => Command::Put { key: key.clone(), value: value.clone() },
            Command::Remove { key } => Command::Remove { key: key.clone() },
        }
    }
}

/// A command as the contracts see it.
pub enum CommandView {
    Put { key: Seq<char>, value: Seq<char> },
    Remove { key: Seq<char> },
}

impl View for Command {
    type V = CommandView;

    open spec fn view(&self) -> CommandView {
        match self {
            Command::Put { key, value } => CommandView::Put { key: key@, value: value@ },
            Command::Remove { key } => CommandView::Remove { key: key@ },
        }
    }
}

impl CommandView {
    /// The key that the command is about.
    pub open spec fn key(self) -> Seq<char> {
        match self {
            CommandView::Put { key, value } => key,
            CommandView::Remove { key } => key,
        }
    }
}

/// The byte `"`, which opens and closes a string in a record.
pub open spec fn quote_byte() -> u8 {
    0x22
}

/// The byte `\`, which escapes the byte behind it inside a string.
pub open spec fn escape_byte() -> u8 {
    0x5c
}

/// The bytes `{"Set":{"key":`, with which a `Set` record begins.
pub open spec fn set_head() -> Seq<u8> {
    seq![0x7b, 0x22, 0x53, 0x65, 0x74, 0x22, 0x3a, 0x7b, 0x22, 0x6b, 0x65, 0x79, 0x22, 0x3a]
}

/// The bytes `,"value":`, which stand between the key and the value.
pub open spec fn value_head() -> Seq<u8> {
    seq![0x2c, 0x22, 0x76, 0x61, 0x6c, 0x75, 0x65, 0x22, 0x3a]
}

/// The bytes `{"Remove":{"key":`, with which a `Remove` record begins.
pub open spec fn remove_head() -> Seq<u8> {
    seq![
        0x7b, 0x22, 0x52, 0x65, 0x6d, 0x6f, 0x76, 0x65, 0x22, 0x3a, 0x7b, 0x22, 0x6b, 0x65, 0x79,
        0x22, 0x3a,
    ]
}

/// The bytes `}}`, with which every record ends.
pub open spec fn record_tail() -> Seq<u8> {
    seq![0x7d, 0x7d]
}

/// The bytes `lit` stand in `s` from offset `at` on.
pub open spec fn has_bytes_at(s: Seq<u8>, at: int, lit: Seq<u8>) -> bool {
    0 <= at && at + lit.len() <= s.len() && s.subrange(at, at + lit.len()) == lit
}

/// The offset just past the quote that closes the string whose inside begins
/// at offset `i` of `s`: the first quote from `i` on that no escape byte
/// precedes. `None` where `s` ends before such a quote.
pub open spec fn string_end(s: Seq<u8>, i: int) -> Option<int>
    decreases s.len() - i,
{
    if i < 0 || i >= s.len() {
        None
    } else if s[i] == quote_byte() {
        Some(i + 1)
    } else if s[i] == escape_byte() {
        if i + 1 < s.len() {
            string_end(s, i + 2)
        } else {
            None
        }
    } else {
        string_end(s, i + 1)
    }
}

/// The offset just past the quoted string that begins at offset `at` of
/// `s`; `None` where none begins there.
pub open spec fn token_end(s: Seq<u8>, at: int) -> Option<int> {
    if 0 <= at < s.len() && s[at] == quote_byte() {
        string_end(s, at + 1)
    } else {
        None
    }
}

/// `text` is one quoted string from its first byte to its last.
pub open spec fn is_token(text: Seq<u8>) -> bool {
    token_end(text, 0) == Some(text.len() as int)
}

/// Where the parts of a record lie.
pub struct Layout {
    /// Whether it is a `Set` record; else it is a `Remove` record.
    pub put: bool,
    /// Where the quoted key begins.
    pub key_start: int,
    /// The offset just past the quoted key.
    pub key_end: int,
    /// Where the quoted value begins; in a `Remove` record, which has no
    /// value, the offset just past the key.
    pub value_start: int,
    /// The offset just past the quoted value; in a `Remove` record, the
    /// offset just past the key.
    pub value_end: int,
    /// The offset just past the record.
    pub end: int,
}

/// The layout of the record that begins at offset `at` of `s`; `None` where
/// the bytes there are not laid out as a record.
pub open spec fn layout_at(s: Seq<u8>, at: int) -> Option<Layout> {
    if has_bytes_at(s, at, set_head()) {
        match token_end(s, at + 14) {
            Some(key_end) => if has_bytes_at(s, key_end, value_head()) {
                match token_end(s, key_end + 9) {
                    Some(value_end) => if has_bytes_at(s, value_end, record_tail()) {
                        Some(
                            Layout {
                                put: true,
                                key_start: at + 14,
                                key_end,
                                value_start: key_end + 9,
                                value_end,
                                end: value_end + 2,
                            },
                        )
                    } else {
                        None
                    },
                    None => None,
                }
            } else {
                None
            },
            None => None,
        }
    } else if has_bytes_at(s, at, remove_head()) {
        match token_end(s, at + 17) {
            Some(key_end) => if has_bytes_at(s, key_end, record_tail()) {
                Some(
                    Layout {
                        put: false,
                        key_start: at + 17,
                        key_end,
                        value_start: key_end,
                        value_end: key_end,
                        end: key_end + 2,
                    },
                )
            } else {
                None
            },
            None => None,
        }
    } else {
        None
    }
}

/// The command whose record begins at offset `at` of `s`, and the offset
/// just past the record: the bytes there are laid out as a record, and its
/// quoted strings can be read. `None` where no record begins there.
pub open spec fn record_at(s: Seq<u8>, at: int) -> Option<(CommandView, int)> {
    match layout_at(s, at) {
        Some(layout) => match json_unquote(s.subrange(layout.key_start, layout.key_end)) {
            Some(key) => if layout.put {
                match json_unquote(s.subrange(layout.value_start, layout.value_end)) {
                    Some(value) => Some((CommandView::Put { key, value }, layout.end)),
                    None => None,
                }
            } else {
                Some((CommandView::Remove { key }, layout.end))
            },
            None => None,
        },
        None => None,
    }
}

/// The `Set` record around a quoted key and a quoted value.
pub open spec fn put_record(key_text: Seq<u8>, value_text: Seq<u8>) -> Seq<u8> {
    set_head() + key_text + value_head() + value_text + record_tail()
}

/// The `Remove` record around a quoted key.
pub open spec fn remove_record(key_text: Seq<u8>) -> Seq<u8> {
    remove_head() + key_text + record_tail()
}

/// A string that can be written to the log and read back: its JSON text is
/// one quoted string, and reading that text gives the string again.
pub open spec fn storable(s: Seq<char>) -> bool {
    match json_quote(s) {
        Some(text) => is_token(text) && json_unquote(text) == Some(s),
        None => false,
    }
}

/// A command all of whose strings are storable.
pub open spec fn writable(c: CommandView) -> bool {
    match c {
        CommandView::Put { key, value } => storable(key) && storable(value),
        CommandView::Remove { key } => storable(key),
    }
}

/// The record of a writable command.
pub open spec fn encoding(c: CommandView) -> Seq<u8> {
    match c {
        CommandView::Put { key, value } => put_record(
            json_quote(key).unwrap(),
            json_quote(value).unwrap(),
        ),
        CommandView::Remove { key } => remove_record(json_quote(key).unwrap()),
    }
}

/// Where two sequences agree on a stretch of `n` bytes, they agree on every
/// part of that stretch.
pub proof fn lemma_same_part(s: Seq<u8>, at: int, t: Seq<u8>, to: int, n: int, a: int, b: int)
    requires
        0 <= at,
        0 <= to,
        0 <= n,
        at + n <= s.len(),
        to + n <= t.len(),
        s.subrange(at, at + n) == t.subrange(to, to + n),
        0 <= a <= b <= n,
    ensures
        s.subrange(at + a, at + b) == t.subrange(to + a, to + b),
        a < n ==> s[at + a] == t[to + a],
{
    let whole = s.subrange(at, at + n);
    assert forall|k: int| 0 <= k < n implies #[trigger] whole[k] == s[at + k] && whole[k] == t[to
        + k] by {
        assert(t.subrange(to, to + n)[k] == t[to + k]);
    }
    let left = s.subrange(at + a, at + b);
    let right = t.subrange(to + a, to + b);
    assert forall|k: int| 0 <= k < b - a implies #[trigger] left[k] == right[k] by {
        assert(whole[a + k] == s[at + a + k]);
    }
    assert(left =~= right);
    if a < n {
        assert(whole[a] == s[at + a]);
    }
}

/// A string that ends, ends behind its beginning and inside the sequence.
pub proof fn lemma_string_end_bounds(s: Seq<u8>, i: int)
    requires
        string_end(s, i) is Some,
    ensures
        0 <= i < string_end(s, i).unwrap() <= s.len(),
    decreases s.len() - i,
{
    if s[i] == quote_byte() {
    } else if s[i] == escape_byte() {
        lemma_string_end_bounds(s, i + 2);
    } else {
        lemma_string_end_bounds(s, i + 1);
    }
}

/// Where a string ends depends only on the bytes up to its end: the same
/// bytes at another offset, or in another sequence, end a string alike.
pub proof fn lemma_string_end_moves(s: Seq<u8>, i: int, t: Seq<u8>, j: int)
    requires
        string_end(s, i) is Some,
        0 <= j,
        j + (string_end(s, i).unwrap() - i) <= t.len(),
        s.subrange(i, string_end(s, i).unwrap()) == t.subrange(
            j,
            j + (string_end(s, i).unwrap() - i),
        ),
    ensures
        string_end(t, j) == Some(j + (string_end(s, i).unwrap() - i)),
    decreases s.len() - i,
{
    lemma_string_end_bounds(s, i);
    let end = string_end(s, i).unwrap();
    let n = end - i;
    lemma_same_part(s, i, t, j, n, 0, n);
    if s[i] == quote_byte() {
    } else if s[i] == escape_byte() {
        lemma_string_end_bounds(s, i + 2);
        lemma_same_part(s, i, t, j, n, 2, n);
        lemma_string_end_moves(s, i + 2, t, j + 2);
    } else {
        lemma_string_end_bounds(s, i + 1);
        lemma_same_part(s, i, t, j, n, 1, n);
        lemma_string_end_moves(s, i + 1, t, j + 1);
    }
}

/// A quoted string lies behind the offset at which it begins and inside the
/// sequence, and has its two quotes at least.
pub proof fn lemma_token_end_bounds(s: Seq<u8>, at: int)
    requires
        token_end(s, at) is Some,
    ensures
        0 <= at,
        at + 2 <= token_end(s, at).unwrap() <= s.len(),
{
    lemma_string_end_bounds(s, at + 1);
}

/// Where a quoted string ends depends only on its bytes.
pub proof fn lemma_token_end_moves(s: Seq<u8>, at: int, t: Seq<u8>, to: int)
    requires
        token_end(s, at) is Some,
        0 <= to,
        to + (token_end(s, at).unwrap() - at) <= t.len(),
        s.subrange(at, token_end(s, at).unwrap()) == t.subrange(
            to,
            to + (token_end(s, at).unwrap() - at),
        ),
    ensures
        token_end(t, to) == Some(to + (token_end(s, at).unwrap() - at)),
{
    lemma_token_end_bounds(s, at);
    let n = token_end(s, at).unwrap() - at;
    lemma_same_part(s, at, t, to, n, 0, n);
    lemma_same_part(s, at, t, to, n, 1, n);
    lemma_string_end_moves(s, at + 1, t, to + 1);
}

/// The layout `l`, `by` bytes further on.
pub open spec fn moved(l: Layout, by: int) -> Layout {
    Layout {
        put: l.put,
        key_start: l.key_start + by,
        key_end: l.key_end + by,
        value_start: l.value_start + by,
        value_end: l.value_end + by,
        end: l.end + by,
    }
}

/// The parts of a record lie in order, behind the offset at which the record
/// begins and inside the sequence.
pub proof fn lemma_layout_bounds(s: Seq<u8>, at: int)
    requires
        layout_at(s, at) is Some,
    ensures
        0 <= at < layout_at(s, at).unwrap().key_start,
        layout_at(s, at).unwrap().key_start + 2 <= layout_at(s, at).unwrap().key_end,
        layout_at(s, at).unwrap().key_end <= layout_at(s, at).unwrap().value_start,
        layout_at(s, at).unwrap().value_start <= layout_at(s, at).unwrap().value_end,
        layout_at(s, at).unwrap().value_end + 2 == layout_at(s, at).unwrap().end,
        layout_at(s, at).unwrap().end <= s.len(),
{
    if has_bytes_at(s, at, set_head()) {
        lemma_token_end_bounds(s, at + 14);
        lemma_token_end_bounds(s, token_end(s, at + 14).unwrap() + 9);
    } else {
        lemma_token_end_bounds(s, at + 17);
    }
}

/// How a record is laid out depends only on the bytes of the record: the
/// same bytes at another offset, or in another sequence, are laid out alike.
pub proof fn lemma_layout_moves(s: Seq<u8>, at: int, t: Seq<u8>, to: int)
    requires
        layout_at(s, at) is Some,
        0 <= to,
        to + (layout_at(s, at).unwrap().end - at) <= t.len(),
        s.subrange(at, layout_at(s, at).unwrap().end) == t.subrange(
            to,
            to + (layout_at(s, at).unwrap().end - at),
        ),
    ensures
        layout_at(t, to) == Some(moved(layout_at(s, at).unwrap(), to - at)),
{
    lemma_layout_bounds(s, at);
    let l = layout_at(s, at).unwrap();
    let n = l.end - at;
    let a = l.key_end - at;
    let b = l.value_end - at;
    if l.put {
        lemma_same_part(s, at, t, to, n, 0, 14);
        lemma_same_part(s, at, t, to, n, 14, a);
        lemma_same_part(s, at, t, to, n, a, a + 9);
        lemma_same_part(s, at, t, to, n, a + 9, b);
        lemma_same_part(s, at, t, to, n, b, b + 2);
        assert(has_bytes_at(t, to, set_head()));
        lemma_token_end_moves(s, at + 14, t, to + 14);
        assert(has_bytes_at(t, to + a, value_head()));
        lemma_token_end_moves(s, at + a + 9, t, to + a + 9);
        assert(has_bytes_at(t, to + b, record_tail()));
    } else {
        lemma_same_part(s, at, t, to, n, 0, 14);
        lemma_same_part(s, at, t, to, n, 0, 17);
        lemma_same_part(s, at, t, to, n, 17, a);
        lemma_same_part(s, at, t, to, n, a, a + 2);
        assert(!has_bytes_at(t, to, set_head()));
        assert(has_bytes_at(t, to, remove_head()));
        lemma_token_end_moves(s, at + 17, t, to + 17);
        assert(has_bytes_at(t, to + a, record_tail()));
    }
}

/// A record lies behind the offset at which it is read, inside the sequence,
/// and is not empty.
pub proof fn lemma_record_bounds(s: Seq<u8>, at: int)
    requires
        record_at(s, at) is Some,
    ensures
        0 <= at < record_at(s, at).unwrap().1 <= s.len(),
{
    lemma_layout_bounds(s, at);
}

/// What is read as a record depends only on the bytes of the record: the same
/// bytes at another offset, or in another sequence, give the same command.
pub proof fn lemma_record_moves(s: Seq<u8>, at: int, t: Seq<u8>, to: int)
    requires
        record_at(s, at) is Some,
        0 <= to,
        to + (record_at(s, at).unwrap().1 - at) <= t.len(),
        s.subrange(at, record_at(s, at).unwrap().1) == t.subrange(
            to,
            to + (record_at(s, at).unwrap().1 - at),
        ),
    ensures
        record_at(t, to) == Some(
            (record_at(s, at).unwrap().0, to + (record_at(s, at).unwrap().1 - at)),
        ),
{
    lemma_layout_bounds(s, at);
    lemma_layout_moves(s, at, t, to);
    let l = layout_at(s, at).unwrap();
    let n = l.end - at;
    lemma_same_part(s, at, t, to, n, l.key_start - at, l.key_end - at);
    lemma_same_part(s, at, t, to, n, l.value_start - at, l.value_end - at);
}

/// The layout of the `Set` record around a quoted key of `kn` bytes and a
/// quoted value of `vn` bytes.
pub open spec fn put_layout(kn: int, vn: int) -> Layout {
    Layout {
        put: true,
        key_start: 14,
        key_end: 14 + kn,
        value_start: 23 + kn,
        value_end: 23 + kn + vn,
        end: 25 + kn + vn,
    }
}

/// The layout of the `Remove` record around a quoted key of `kn` bytes.
pub open spec fn remove_layout(kn: int) -> Layout {
    Layout {
        put: false,
        key_start: 17,
        key_end: 17 + kn,
        value_start: 17 + kn,
        value_end: 17 + kn,
        end: 19 + kn,
    }
}

/// A `Remove` record that is laid around a quoted string is laid out as a
/// record, with the quoted string as its key.
pub proof fn lemma_remove_record_layout(key_text: Seq<u8>)
    requires
        is_token(key_text),
    ensures
        layout_at(remove_record(key_text), 0) == Some(remove_layout(key_text.len() as int)),
        remove_record(key_text).len() == 19 + key_text.len(),
        remove_record(key_text).subrange(17, 17 + key_text.len() as int) == key_text,
{
    let kn = key_text.len() as int;
    assert(key_text.subrange(0, kn) =~= key_text);
    let r = remove_record(key_text);
    assert(r.subrange(0, 17) =~= remove_head());
    assert(r.subrange(17, 17 + kn) =~= key_text);
    assert(r.subrange(17 + kn, 19 + kn) =~= record_tail());
    assert(r.subrange(0, 14)[2] != set_head()[2]);
    assert(!has_bytes_at(r, 0, set_head()));
    lemma_token_end_moves(key_text, 0, r, 17);
}

/// A `Set` record that is laid around two quoted strings is laid out as a
/// record, with the quoted strings as its key and its value.
pub proof fn lemma_put_record_layout(key_text: Seq<u8>, value_text: Seq<u8>)
    requires
        is_token(key_text),
        is_token(value_text),
    ensures
        layout_at(put_record(key_text, value_text), 0) == Some(
            put_layout(key_text.len() as int, value_text.len() as int),
        ),
        put_record(key_text, value_text).len() == 25 + key_text.len() + value_text.len(),
        put_record(key_text, value_text).subrange(14, 14 + key_text.len() as int) == key_text,
        put_record(key_text, value_text).subrange(
            23 + key_text.len() as int,
            23 + key_text.len() as int + value_text.len() as int,
        ) == value_text,
{
    let kn = key_text.len() as int;
    let vn = value_text.len() as int;
    assert(key_text.subrange(0, kn) =~= key_text);
    assert(value_text.subrange(0, vn) =~= value_text);
    let p = put_record(key_text, value_text);
    assert(p.subrange(0, 14) =~= set_head());
    assert(p.subrange(14, 14 + kn) =~= key_text);
    assert(p.subrange(14 + kn, 23 + kn) =~= value_head());
    assert(p.subrange(23 + kn, 23 + kn + vn) =~= value_text);
    assert(p.subrange(23 + kn + vn, 25 + kn + vn) =~= record_tail());
    lemma_token_end_moves(key_text, 0, p, 14);
    lemma_token_end_moves(value_text, 0, p, 23 + kn);
}

/// The record of a writable command is read back as that command, and as
/// nothing more.
pub proof fn lemma_encoding_read_back(c: CommandView)
    requires
        writable(c),
    ensures
        record_at(encoding(c), 0) == Some((c, encoding(c).len() as int)),
        encoding(c).len() >= 16,
{
    match c {
        CommandView::Put { key, value } => {
            lemma_put_record_layout(json_quote(key).unwrap(), json_quote(value).unwrap());
        },
        CommandView::Remove { key } => {
            lemma_remove_record_layout(json_quote(key).unwrap());
        },
    }
}

/// Whether `lit` stands in `bytes` from offset `at` on.
pub fn bytes_at(bytes: &[u8], at: usize, lit: &[u8]) -> (r: bool)
    ensures
        r == has_bytes_at(bytes@, at as int, lit@),
{
    if at > bytes.len() || lit.len() > bytes.len() - at {
        return false;
    }
    let mut i: usize = 0;
    while i < lit.len()
        invariant
            i <= lit.len(),
            at + lit.len() <= bytes.len(),
            forall|j: int| 0 <= j < i ==> bytes@[at + j] == lit@[j],
        decreases lit.len() - i,
    {
        if bytes[at + i] != lit[i] {
            assert(bytes@.subrange(at as int, at + lit.len())[i as int] != lit@[i as int]);
            return false;
        }
        i += 1;
    }
    assert(bytes@.subrange(at as int, at + lit.len()) =~= lit@);
    true
}

/// The offset just past the quoted string that begins at offset `at` of
/// `bytes`; `None` where none begins there.
pub fn quoted_string_end(bytes: &[u8], at: usize) -> (r: Option<usize>)
    ensures
        match r {
            Some(end) => token_end(bytes@, at as int) == Some(end as int) && at + 2 <= end
                <= bytes.len(),
            None => token_end(bytes@, at as int) is None,
        },
{
    if at >= bytes.len() || bytes[at] != 0x22 {
        return None;
    }
    let mut i: usize = at + 1;
    while i < bytes.len()
        invariant
            at < i,
            at < bytes.len(),
            bytes@[at as int] == quote_byte(),
            string_end(bytes@, at + 1) == string_end(bytes@, i as int),
        decreases bytes.len() - i,
    {
        let b = bytes[i];
        if b == 0x22 {
            return Some(i + 1);
        } else if b == 0x5c {
            if bytes.len() - i < 2 {
                return None;
            }
            i += 2;
        } else {
            i += 1;
        }
    }
    None
}

/// Whether `text` is one quoted string from its first byte to its last.
pub fn is_quoted_string(text: &[u8]) -> (r: bool)
    ensures
        r == is_token(text@),
{
    match quoted_string_end(text, 0) {
        Some(end) => end == text.len(),
        None => false,
    }
}

/// Where the parts of a record lie in a buffer.
#[derive(Debug, Clone, Copy, PartialEq, Eq, Structural)]
pub struct RecordLayout {
    /// Whether it is a `Set` record; else it is a `Remove` record.
    pub put: bool,
    /// Where the quoted key begins.
    pub key_start: usize,
    /// The offset just past the quoted key.
    pub key_end: usize,
    /// Where the quoted value begins; in a `Remove` record, which has no
    /// value, the offset just past the key.
    pub value_start: usize,
    /// The offset just past the quoted value; in a `Remove` record, the
    /// offset just past the key.
    pub value_end: usize,
    /// The offset just past the record.
    pub end: usize,
}

impl View for RecordLayout {
    type V = Layout;

    open spec fn view(&self) -> Layout {
        Layout {
            put: self.put,
            key_start: self.key_start as int,
            key_end: self.key_end as int,
            value_start: self.value_start as int,
            value_end: self.value_end as int,
            end: self.end as int,
        }
    }
}

fn set_head_bytes() -> (r: [u8; 14])
    ensures
        r@ == set_head(),
{
    let r: [u8; 14] = [
        0x7b, 0x22, 0x53, 0x65, 0x74, 0x22, 0x3a, 0x7b, 0x22, 0x6b, 0x65, 0x79, 0x22, 0x3a,
    ];
    assert(r@ =~= set_head());
    r
}

fn value_head_bytes() -> (r: [u8; 9])
    ensures
        r@ == value_head(),
{
    let r: [u8; 9] = [0x2c, 0x22, 0x76, 0x61, 0x6c, 0x75, 0x65, 0x22, 0x3a];
    assert(r@ =~= value_head());
    r
}

fn remove_head_bytes() -> (r: [u8; 17])
    ensures
        r@ == remove_head(),
{
    let r: [u8; 17] = [
        0x7b, 0x22, 0x52, 0x65, 0x6d, 0x6f, 0x76, 0x65, 0x22, 0x3a, 0x7b, 0x22, 0x6b, 0x65, 0x79,
        0x22, 0x3a,
    ];
    assert(r@ =~= remove_head());
    r
}

fn record_tail_bytes() -> (r: [u8; 2])
    ensures
        r@ == record_tail(),
{
    let r: [u8; 2] = [0x7d, 0x7d];
    assert(r@ =~= record_tail());
    r
}

/// The layout of the record that begins at offset `at` of `bytes`; `None`
/// where the bytes there are not laid out as a record.
pub fn record_layout(bytes: &[u8], at: usize) -> (r: Option<RecordLayout>)
    ensures
        match r {
            Some(layout) => layout_at(bytes@, at as int) == Some(layout@) && at
                < layout.key_start <= layout.key_end <= layout.value_start <= layout.value_end
                < layout.end <= bytes.len(),
            None => layout_at(bytes@, at as int) is None,
        },
{
    if at >= bytes.len() {
        return None;
    }
    let tail = record_tail_bytes();
    assert(set_head().len() == 14 && value_head().len() == 9 && remove_head().len() == 17
        && record_tail().len() == 2);
    if bytes_at(bytes, at, set_head_bytes().as_slice()) {
        let key_end = match quoted_string_end(bytes, at + 14) {
            Some(end) => end,
            None => {
                return None;
            },
        };
        if !bytes_at(bytes, key_end, value_head_bytes().as_slice()) {
            return None;
        }
        let value_end = match quoted_string_end(bytes, key_end + 9) {
            Some(end) => end,
            None => {
                return None;
            },
        };
        if !bytes_at(bytes, value_end, tail.as_slice()) {
            return None;
        }
        Some(
            RecordLayout {
                put: true,
                key_start: at + 14,
                key_end,
                value_start: key_end + 9,
                value_end,
                end: value_end + 2,
            },
        )
    } else if bytes_at(bytes, at, remove_head_bytes().as_slice()) {
        let key_end = match quoted_string_end(bytes, at + 17) {
            Some(end) => end,
            None => {
                return None;
            },
        };
        if !bytes_at(bytes, key_end, tail.as_slice()) {
            return None;
        }
        Some(
            RecordLayout {
                put: false,
                key_start: at + 17,
                key_end,
                value_start: key_end,
                value_end: key_end,
                end: key_end + 2,
            },
        )
    } else {
        None
    }
}

/// Reads the record that begins at offset `at` of `bytes`: the command, and
/// the offset just past its record. `None` where no record begins there.
pub fn next_command(bytes: &[u8], at: usize) -> (r: Option<(Command, usize)>)
    ensures
        match r {
            Some((command, end)) => record_at(bytes@, at as int) == Some((command@, end as int))
                && at < end <= bytes.len(),
            None => record_at(bytes@, at as int) is None,
        },
{
    let layout = match record_layout(bytes, at) {
        Some(layout) => layout,
        None => {
            return None;
        },
    };
    let key = match unquote(slice_subrange(bytes, layout.key_start, layout.key_end)) {
        Ok(key) => key,
        Err(_) => {
            return None;
        },
    };
    if !layout.put {
        return Some((Command::Remove { key }, layout.end));
    }
    match unquote(slice_subrange(bytes, layout.value_start, layout.value_end)) {
        Ok(value) => Some((Command::Put { key, value }, layout.end)),
        Err(_) => None,
    }
}

/// Reads `buffer` as one record from its first byte to its last.
pub fn read_command(buffer: &[u8]) -> (r: Result<Command, KvsError>)
    ensures
        match r {
            Ok(command) => record_at(buffer@, 0) == Some((command@, buffer@.len() as int)),
            Err(e) => e == KvsError::Serde && !(record_at(buffer@, 0) matches Some((_, end))
                && end == buffer@.len()),
        },
{
    match next_command(buffer, 0) {
        Some((command, end)) => if end == buffer.len() {
            Ok(command)
        } else {
            Err(KvsError::Serde)
        },
        None => Err(KvsError::Serde),
    }
}

/// Appends `part` to `out`.
fn append(out: &mut Vec<u8>, part: &[u8])
    ensures
        final(out)@ == old(out)@ + part@,
{
    let mut i: usize = 0;
    while i < part.len()
        invariant
            i <= part.len(),
            out@ == old(out)@ + part@.subrange(0, i as int),
        decreases part.len() - i,
    {
        out.push(part[i]);
        assert(out@ =~= old(out)@ + part@.subrange(0, i + 1));
        i += 1;
    }
    assert(part@.subrange(0, part.len() as int) =~= part@);
}

/// Lays a `Set` record around a quoted key and a quoted value.
pub fn frame_put(key_text: &[u8], value_text: &[u8]) -> (r: Vec<u8>)
    ensures
        r@ == put_record(key_text@, value_text@),
{
    let mut r: Vec<u8> = Vec::new();
    append(&mut r, set_head_bytes().as_slice());
    append(&mut r, key_text);
    append(&mut r, value_head_bytes().as_slice());
    append(&mut r, value_text);
    append(&mut r, record_tail_bytes().as_slice());
    assert(r@ =~= put_record(key_text@, value_text@));
    r
}

/// Lays a `Remove` record around a quoted key.
pub fn frame_remove(key_text: &[u8]) -> (r: Vec<u8>)
    ensures
        r@ == remove_record(key_text@),
{
    let mut r: Vec<u8> = Vec::new();
    append(&mut r, remove_head_bytes().as_slice());
    append(&mut r, key_text);
    append(&mut r, record_tail_bytes().as_slice());
    assert(r@ =~= remove_record(key_text@));
    r
}

/// The JSON text of `s`, checked: it is one quoted string, and reading it
/// gives `s` again.
fn quote_checked(s: &String) -> (r: Result<Vec<u8>, KvsError>)
    ensures
        match r {
            Ok(text) => storable(s@) && json_quote(s@) == Some(text@),
            Err(e) => e == KvsError::Serde && !storable(s@),
        },
{
    let text = match quote(s.as_str()) {
        Ok(text) => text,
        Err(_) => {
            return Err(KvsError::Serde);
        },
    };
    if !is_quoted_string(text.as_slice()) {
        return Err(KvsError::Serde);
    }
    match unquote(text.as_slice()) {
        Ok(back) => if back == *s {
            Ok(text)
        } else {
            Err(KvsError::Serde)
        },
        Err(_) => Err(KvsError::Serde),
    }
}

/// A command together with its record, ready to be appended to a segment.
pub struct Record {
    command: Command,
    bytes: Vec<u8>,
}

impl Record {
    #[verifier::type_invariant]
    pub open spec fn well_formed(&self) -> bool {
        writable(self.command_view()) && self.bytes_view() == encoding(self.command_view())
    }

    /// The command.
    pub closed spec fn command_view(&self) -> CommandView {
        self.command@
    }

    /// The record.
    pub closed spec fn bytes_view(&self) -> Seq<u8> {
        self.bytes@
    }

    /// The command.
    pub fn command(&self) -> (r: &Command)
        ensures
            r@ == self.command_view(),
            self.well_formed(),
    {
        proof {
            use_type_invariant(self);
        }
        &self.command
    }

    /// The bytes to append.
    pub fn bytes(&self) -> (r: &Vec<u8>)
        ensures
            r@ == self.bytes_view(),
            self.well_formed(),
    {
        proof {
            use_type_invariant(self);
        }
        &self.bytes
    }

    /// The number of bytes of the record.
    pub fn len(&self) -> (r: usize)
        ensures
            r == self.bytes_view().len(),
            self.well_formed(),
    {
        proof {
            use_type_invariant(self);
        }
        self.bytes.len()
    }

    /// Gives up the record for its command and its bytes.
    pub fn into_parts(self) -> (r: (Command, Vec<u8>))
        ensures
            r.0@ == self.command_view(),
            r.1@ == self.bytes_view(),
            self.well_formed(),
    {
        proof {
            use_type_invariant(&self);
        }
        (self.command, self.bytes)
    }
}

impl Command {
    /// Encodes the command as a record, and checks that the record reads
    /// back as the command. Fails with `Serde` where one of its strings is
    /// not storable.
    pub fn encode(self) -> (r: Result<Record, KvsError>)
        ensures
            match r {
                Ok(record) => writable(self@) && record.command_view() == self@
                    && record.bytes_view() == encoding(self@) && record.well_formed()
                    && record_at(record.bytes_view(), 0) == Some(
                    (self@, record.bytes_view().len() as int),
                ),
                Err(e) => e == KvsError::Serde && !writable(self@),
            },
    {
        let bytes = match &self {
            Command::Put { key, value } => {
                let key_text = quote_checked(key)?;
                let value_text = quote_checked(value)?;
                frame_put(key_text.as_slice(), value_text.as_slice())
            },
            Command::Remove { key } => {
                let key_text = quote_checked(key)?;
                frame_remove(key_text.as_slice())
            },
        };
        proof {
            lemma_encoding_read_back(self@);
        }
        Ok(Record { command: self, bytes })
    }
}

} // verus!
