//! Server log lines: the common head of a line and the three kinds of entry
//! that a line can be.

use vstd::prelude::*;
use vstd::string::*;
use vstd::utf8::{decode_utf8, encode_utf8, is_char_boundary};
use crate::logparser::text::{
    absent, chars_of, decimal_u8, field, field_bounds, field_count, field_end, field_start, find_first,
    first_occurrence, has_prefix, parse_decimal_u8, starts_with,
};

verus! {

broadcast use vstd::string::group_string_axioms;

/// The role of the server that wrote a line.
#[derive(Clone, Copy, Debug, PartialEq, Eq, Structural)]
pub enum ServerType {
    Proxy,
    Object,
    Account,
    Container,
    Unknown,
}

/// What every log line starts with.
#[derive(Debug, Clone)]
pub struct CommonLogEntry {
    pub date: String,
    pub time: String,
    pub hostname: String,
    pub server_type: ServerType,
}

/// The mathematical content of a `CommonLogEntry`.
pub struct CommonLogEntryView {
    pub date: Seq<char>,
    pub time: Seq<char>,
    pub hostname: Seq<char>,
    pub server_type: ServerType,
}

impl View for CommonLogEntry {
    type V = CommonLogEntryView;

    open spec fn view(&self) -> CommonLogEntryView {
        CommonLogEntryView {
            date: self.date@,
            time: self.time@,
            hostname: self.hostname@,
            server_type: self.server_type,
        }
    }
}

impl CommonLogEntry {
    /// A copy with the same content.
    pub fn copy(&self) -> (r: CommonLogEntry)
        ensures
            r@ == self@,
    {
        CommonLogEntry {
            date: self.date.clone(),
            time: self.time.clone(),
            hostname: self.hostname.clone(),
            server_type: self.server_type,
        }
    }
}

/// A log line taken apart: its head, and the text behind the head.
#[derive(Debug, Clone)]
pub struct LogEntry(pub CommonLogEntry, pub String);

/// The mathematical content of a `LogEntry`.
pub struct LogEntryView {
    pub common: CommonLogEntryView,
    pub rest: Seq<char>,
}

impl View for LogEntry {
    type V = LogEntryView;

    open spec fn view(&self) -> LogEntryView {
        LogEntryView { common: self.0@, rest: self.1@ }
    }
}

/// One request that a server answered.
#[derive(Debug, Clone)]
pub struct RequestEntry {
    pub common: CommonLogEntry,
    pub url: String,
    pub verb: String,
    pub status_code: u8,
}

/// The mathematical content of a `RequestEntry`.
pub struct RequestEntryView {
    pub common: CommonLogEntryView,
    pub url: Seq<char>,
    pub verb: Seq<char>,
    pub status_code: u8,
}

impl View for RequestEntry {
    type V = RequestEntryView;

    open spec fn view(&self) -> RequestEntryView {
        RequestEntryView {
            common: self.common@,
            url: self.url@,
            verb: self.verb@,
            status_code: self.status_code,
        }
    }
}

/// One error that a server reported.
#[derive(Debug, Clone)]
pub struct ErrorEntry {
    pub common: CommonLogEntry,
    pub error: String,
}

/// The mathematical content of an `ErrorEntry`.
pub struct ErrorEntryView {
    pub common: CommonLogEntryView,
    pub error: Seq<char>,
}

impl View for ErrorEntry {
    type V = ErrorEntryView;

    open spec fn view(&self) -> ErrorEntryView {
        ErrorEntryView { common: self.common@, error: self.error@ }
    }
}

/// One notice that a request was handed off to another device.
#[derive(Debug, Clone)]
pub struct HandoffEntry {
    pub common: CommonLogEntry,
}

/// The mathematical content of a `HandoffEntry`.
pub struct HandoffEntryView {
    pub common: CommonLogEntryView,
}

impl View for HandoffEntry {
    type V = HandoffEntryView;

    open spec fn view(&self) -> HandoffEntryView {
        HandoffEntryView { common: self.common@ }
    }
}

/// One line of a log.
#[derive(Debug)]
pub struct LogLine {
    pub line: String,
}

impl View for LogLine {
    type V = Seq<char>;

    open spec fn view(&self) -> Seq<char> {
        self.line@
    }
}

/// The role that the fifth field of a line names.
pub open spec fn server_type_of(tag: Seq<char>) -> ServerType {
    if tag == "proxy-server:"@ {
        ServerType::Proxy
    } else if tag == "object-server:"@ {
        ServerType::Object
    } else if tag == "account-server:"@ {
        ServerType::Account
    } else if tag == "container-server:"@ {
        ServerType::Container
    } else {
        ServerType::Unknown
    }
}

/// Whether a line has the five fields of the head.
pub open spec fn is_log_line(line: Seq<char>) -> bool {
    field_count(line) >= 5
}

/// The text behind the head: what follows the fifth space, or nothing.
pub open spec fn rest_of(line: Seq<char>) -> Seq<char> {
    if field_count(line) > 5 {
        line.subrange(field_start(line, 5), line.len() as int)
    } else {
        Seq::empty()
    }
}

/// What a line with a head is taken apart into: the date is the first two
/// fields with their space, then come time, host name and server role.
pub open spec fn log_entry_of(line: Seq<char>) -> LogEntryView {
    LogEntryView {
        common: CommonLogEntryView {
            date: line.subrange(0, field_end(line, 1)),
            time: field(line, 2),
            hostname: field(line, 3),
            server_type: server_type_of(field(line, 4)),
        },
        rest: rest_of(line),
    }
}

/// The bytes of the transaction mark `txn: tx`.
pub open spec fn mark() -> Seq<u8> {
    encode_utf8("txn: tx"@)
}

/// Whether the bytes of a text begin with those of a tag.
pub open spec fn begins_with(rest: Seq<char>, tag: Seq<char>) -> bool {
    starts_with(encode_utf8(rest), encode_utf8(tag))
}

/// The byte at which the transaction mark first stands in a text.
pub open spec fn mark_position(rest: Seq<char>) -> int {
    choose|at: int| first_occurrence(encode_utf8(rest), mark(), at)
}

/// Whether a text bears the transaction mark.
pub open spec fn has_mark(rest: Seq<char>) -> bool {
    !absent(encode_utf8(rest), mark())
}

/// Whether the transaction identifier behind the mark can be cut out: the
/// text has the 34 bytes that start five bytes behind the start of the
/// mark, and no character straddles either end of them.
pub open spec fn mark_fits(rest: Seq<char>) -> bool {
    has_mark(rest) ==> {
        &&& mark_position(rest) + 39 <= encode_utf8(rest).len()
        &&& is_char_boundary(encode_utf8(rest), mark_position(rest) + 5)
        &&& is_char_boundary(encode_utf8(rest), mark_position(rest) + 39)
    }
}

/// The transaction identifier behind the mark: the characters of the 34
/// bytes that start five bytes behind the start of the mark.
pub open spec fn marked_txid(rest: Seq<char>) -> Seq<char> {
    decode_utf8(encode_utf8(rest).subrange(mark_position(rest) + 5, mark_position(rest) + 39))
}

/// The first occurrence of a needle is the place that `choose` picks.
pub proof fn lemma_first_occurrence_unique<T>(text: Seq<T>, needle: Seq<T>, a: int, b: int)
    requires
        first_occurrence(text, needle, a),
        first_occurrence(text, needle, b),
    ensures
        a == b,
{
}

/// The bytes of two texts put together are the bytes of the one followed
/// by the bytes of the other.
pub proof fn lemma_encode_concat(a: Seq<char>, b: Seq<char>)
    ensures
        encode_utf8(a + b) == encode_utf8(a) + encode_utf8(b),
    decreases a.len(),
{
    if a.len() == 0 {
        assert(a + b =~= b);
        assert(encode_utf8(a) + encode_utf8(b) =~= encode_utf8(b));
    } else {
        lemma_encode_concat(a.drop_first(), b);
        assert((a + b).drop_first() =~= a.drop_first() + b);
        assert(encode_utf8(a + b) =~= encode_utf8(a) + encode_utf8(b));
    }
}

/// A text begins with a tag byte by byte exactly where it does so character
/// by character.
pub proof fn lemma_begins_with(rest: Seq<char>, tag: Seq<char>)
    ensures
        begins_with(rest, tag) <==> starts_with(rest, tag),
    decreases tag.len(),
{
    let bytes = encode_utf8(rest);
    let prefix = encode_utf8(tag);
    if tag.len() == 0 {
        assert(rest.subrange(0, 0) =~= tag);
        assert(bytes.subrange(0, 0) =~= prefix);
    } else {
        if starts_with(rest, tag) {
            let tail = rest.subrange(tag.len() as int, rest.len() as int);
            assert(rest =~= tag + tail);
            lemma_encode_concat(tag, tail);
            assert(bytes.subrange(0, prefix.len() as int) =~= prefix);
        }
        if begins_with(rest, tag) {
            vstd::utf8::encode_utf8_first_scalar(tag);
            assert(prefix.len() >= 1);
            assert(rest.len() > 0);
            vstd::utf8::encode_utf8_first_scalar(rest);
            let width = vstd::utf8::length_of_first_scalar(prefix);
            assert forall|i: int| 0 <= i < prefix.len() implies bytes[i] == prefix[i] by {
                assert(bytes.subrange(0, prefix.len() as int)[i] == prefix[i]);
            }
            assert(bytes[0] == prefix[0]);
            assert(vstd::utf8::length_of_first_scalar(bytes) == width);
            assert(width <= prefix.len());
            assert(vstd::utf8::decode_first_scalar(bytes) == vstd::utf8::decode_first_scalar(prefix)) by {
                if width >= 2 {
                    assert(bytes[1] == prefix[1]);
                }
                if width >= 3 {
                    assert(bytes[2] == prefix[2]);
                }
                if width >= 4 {
                    assert(bytes[3] == prefix[3]);
                }
            }
            vstd::utf8::char_u32_cast(rest[0], rest[0] as u32);
            vstd::utf8::char_u32_cast(tag[0], tag[0] as u32);
            assert(rest[0] == tag[0]);
            let rest_tail = encode_utf8(rest.drop_first());
            let tag_tail = encode_utf8(tag.drop_first());
            assert(rest_tail =~= bytes.subrange(width, bytes.len() as int));
            assert(tag_tail =~= prefix.subrange(width, prefix.len() as int));
            assert(rest_tail.subrange(0, tag_tail.len() as int) =~= tag_tail);
            lemma_begins_with(rest.drop_first(), tag.drop_first());
            assert(rest.subrange(0, tag.len() as int) =~= seq![rest[0]] + rest.drop_first().subrange(
                0,
                tag.len() - 1,
            ));
            assert(tag =~= seq![tag[0]] + tag.drop_first());
        }
    }
}

/// A character boundary of a text is one of its tail behind an earlier
/// boundary.
pub proof fn lemma_boundary_in_tail(bytes: Seq<u8>, from: int, to: int)
    requires
        vstd::utf8::valid_utf8(bytes),
        0 <= from <= to <= bytes.len(),
        is_char_boundary(bytes, from),
        is_char_boundary(bytes, to),
    ensures
        vstd::utf8::valid_utf8(bytes.subrange(from, bytes.len() as int)),
        is_char_boundary(bytes.subrange(from, bytes.len() as int), to - from),
{
    let tail = bytes.subrange(from, bytes.len() as int);
    vstd::utf8::valid_utf8_split(bytes, from);
    if to == bytes.len() {
        vstd::utf8::is_char_boundary_start_end_of_seq(tail);
    } else {
        vstd::utf8::is_char_boundary_iff_not_is_continuation_byte(bytes, to);
        vstd::utf8::is_char_boundary_iff_not_is_continuation_byte(tail, to - from);
        assert(tail[to - from] == bytes[to]);
    }
}

/// The identifier that is cut out behind the mark has exactly the 34 bytes
/// that start five bytes behind the start of the mark.
pub proof fn lemma_marked_txid_bytes(rest: Seq<char>)
    requires
        has_mark(rest),
        mark_fits(rest),
    ensures
        encode_utf8(marked_txid(rest)) == encode_utf8(rest).subrange(
            mark_position(rest) + 5,
            mark_position(rest) + 39,
        ),
        encode_utf8(marked_txid(rest)).len() == 34,
{
    let bytes = encode_utf8(rest);
    let at = mark_position(rest);
    let tail = bytes.subrange(at + 5, bytes.len() as int);
    vstd::utf8::encode_utf8_valid_utf8(rest);
    lemma_boundary_in_tail(bytes, at + 5, at + 39);
    vstd::utf8::valid_utf8_split(tail, 34);
    assert(tail.subrange(0, 34) =~= bytes.subrange(at + 5, at + 39));
    vstd::utf8::decode_utf8_encode_utf8(bytes.subrange(at + 5, at + 39));
}

/// An entry of one kind, read from a log entry together with the
/// identifier of its transaction.
pub trait LogParse: Sized + View {
    /// Whether `parse` can be asked about an entry.
    spec fn parseable(entry: LogEntryView) -> bool;

    /// The identifier and the content that an entry of this kind parses
    /// to; `None` for an entry of another kind.
    spec fn parsed(entry: LogEntryView) -> Option<(Seq<char>, Self::V)>;

    fn parse(e: &LogEntry) -> (r: Option<(String, Self)>)
        requires
            Self::parseable(e@),
        ensures
            match r {
                Some((txid, item)) => Self::parsed(e@) == Some((txid@, item@)),
                None => Self::parsed(e@) is None,
            },
    ;
}

/// Reads the transaction identifier behind the mark of a text that begins
/// with `tag`.
pub fn read_marked_txid(rest: &String, tag: &str) -> (r: Option<String>)
    requires
        begins_with(rest@, tag@) ==> mark_fits(rest@),
    ensures
        match r {
            Some(txid) => begins_with(rest@, tag@) && has_mark(rest@) && txid@ == marked_txid(rest@),
            None => !(begins_with(rest@, tag@) && has_mark(rest@)),
        },
{
    let text = rest.as_str();
    let bytes = text.as_bytes();
    if !has_prefix(bytes, tag.as_bytes()) {
        return None;
    }
    let len: usize = bytes.len();
    match find_first(bytes, "txn: tx".as_bytes()) {
        Some(at) => {
            proof {
                lemma_first_occurrence_unique(bytes@, mark(), at as int, mark_position(rest@));
                vstd::utf8::encode_utf8_valid_utf8(rest@);
                lemma_boundary_in_tail(bytes@, at + 5, at + 39);
            }
            assert(at + 39 <= len);
            let (_, tail) = text.split_at(at + 5);
            let (txid, _) = tail.split_at(34);
            proof {
                assert(txid.spec_bytes() =~= bytes@.subrange(at + 5, at + 39));
                vstd::utf8::encode_utf8_decode_utf8(txid@);
            }
            Some(txid.to_owned())
        },
        None => None,
    }
}

impl LogParse for ErrorEntry {
    open spec fn parseable(entry: LogEntryView) -> bool {
        begins_with(entry.rest, "ERROR"@) ==> mark_fits(entry.rest)
    }

    /// An error entry begins with `ERROR` and bears the transaction mark;
    /// its text is all that follows the head.
    open spec fn parsed(entry: LogEntryView) -> Option<(Seq<char>, ErrorEntryView)> {
        if begins_with(entry.rest, "ERROR"@) && has_mark(entry.rest) {
            Some((marked_txid(entry.rest), ErrorEntryView { common: entry.common, error: entry.rest }))
        } else {
            None
        }
    }

    fn parse(e: &LogEntry) -> (r: Option<(String, ErrorEntry)>) {
        match read_marked_txid(&e.1, "ERROR") {
            Some(txid) => Some((txid, ErrorEntry { common: e.0.copy(), error: e.1.clone() })),
            None => None,
        }
    }
}

impl LogParse for HandoffEntry {
    open spec fn parseable(entry: LogEntryView) -> bool {
        begins_with(entry.rest, "Handoff"@) ==> mark_fits(entry.rest)
    }

    /// A handoff entry begins with `Handoff` and bears the transaction
    /// mark.
    open spec fn parsed(entry: LogEntryView) -> Option<(Seq<char>, HandoffEntryView)> {
        if begins_with(entry.rest, "Handoff"@) && has_mark(entry.rest) {
            Some((marked_txid(entry.rest), HandoffEntryView { common: entry.common }))
        } else {
            None
        }
    }

    fn parse(e: &LogEntry) -> (r: Option<(String, HandoffEntry)>) {
        match read_marked_txid(&e.1, "Handoff") {
            Some(txid) => Some((txid, HandoffEntry { common: e.0.copy() })),
            None => None,
        }
    }
}

/// The status that the seventh field of a request writes: its decimal
/// value where it is one below 256, else 0.
pub open spec fn status_of(text: Seq<char>) -> u8 {
    match decimal_u8(text) {
        Some(code) => code,
        None => 0,
    }
}

impl LogParse for RequestEntry {
    open spec fn parseable(entry: LogEntryView) -> bool {
        true
    }

    /// A request entry has exactly twenty fields behind the head: the
    /// fourth is the verb, the fifth the URL, the seventh the status and
    /// the fourteenth the transaction identifier.
    open spec fn parsed(entry: LogEntryView) -> Option<(Seq<char>, RequestEntryView)> {
        if field_count(entry.rest) == 20 {
            Some(
                (
                    field(entry.rest, 13),
                    RequestEntryView {
                        common: entry.common,
                        url: field(entry.rest, 4),
                        verb: field(entry.rest, 3),
                        status_code: status_of(field(entry.rest, 6)),
                    },
                ),
            )
        } else {
            None
        }
    }

    fn parse(e: &LogEntry) -> (r: Option<(String, RequestEntry)>) {
        let rest = e.1.as_str();
        let chars = chars_of(rest);
        let bounds = field_bounds(&chars);
        if bounds.len() != 20 {
            return None;
        }
        let url = rest.substring_char(bounds[4].0, bounds[4].1).to_owned();
        let verb = rest.substring_char(bounds[3].0, bounds[3].1).to_owned();
        let status_code: u8 = match parse_decimal_u8(&chars, bounds[6].0, bounds[6].1) {
            Some(code) => code,
            None => 0,
        };
        let txid = rest.substring_char(bounds[13].0, bounds[13].1).to_owned();
        Some((txid, RequestEntry { common: e.0.copy(), url, verb, status_code }))
    }
}

impl LogLine {
    /// Wraps one line of a log.
    pub fn new(x: &str) -> (r: LogLine)
        ensures
            r@ == x@,
    {
        LogLine { line: x.to_owned() }
    }

    /// Takes a line apart into its head and the text behind it.
    pub fn to_log_entry(&self) -> (r: LogEntry)
        requires
            is_log_line(self@),
        ensures
            r@ == log_entry_of(self@),
    {
        let line = self.line.as_str();
        let chars = chars_of(line);
        let bounds = field_bounds(&chars);
        let date = line.substring_char(0, bounds[1].1).to_owned();
        let time = line.substring_char(bounds[2].0, bounds[2].1).to_owned();
        let hostname = line.substring_char(bounds[3].0, bounds[3].1).to_owned();
        let tag = line.substring_char(bounds[4].0, bounds[4].1).to_owned();
        let server_type = if tag == "proxy-server:".to_owned() {
            ServerType::Proxy
        } else if tag == "object-server:".to_owned() {
            ServerType::Object
        } else if tag == "account-server:".to_owned() {
            ServerType::Account
        } else if tag == "container-server:".to_owned() {
            ServerType::Container
        } else {
            ServerType::Unknown
        };
        let rest = if bounds.len() > 5 {
            line.substring_char(bounds[5].0, chars.len()).to_owned()
        } else {
            String::new()
        };
        LogEntry(CommonLogEntry { date, time, hostname, server_type }, rest)
    }
}

} // verus!
