use crate::error::{Fault, KvError};
use vstd::prelude::*;
use vstd::slice::slice_subrange;

verus! {

/// One durable log record.
#[derive(Debug)]
pub enum Command {
    Put(String, String),
    Remove(String),
}

/// A command as the contracts see it: its strings as sequences of characters.
pub enum CommandView {
    Put(Seq<char>, Seq<char>),
    Remove(Seq<char>),
}

impl View for Command {
    type V = CommandView;

    open spec fn view(&self) -> CommandView {
        match self {
            Command::Put(k, v) => CommandView::Put(k@, v@),
            Command::Remove(k) => CommandView::Remove(k@),
        }
    }
}

impl CommandView {
    /// The key that the command is about.
    pub open spec fn key(self) -> Seq<char> {
        match self {
            CommandView::Put(k, _) => k,
            CommandView::Remove(k) => k,
        }
    }
}

/// The byte `"`, which opens and closes a string in JSON.
pub const QUOTE: u8 = 0x22;

/// The byte `\`, which takes the byte behind it out of play in a string.
pub const BACKSLASH: u8 = 0x5c;

/// The byte `,`.
pub const COMMA: u8 = 0x2c;

/// The bytes `{"Set":[`, with which the record of a `Put` begins.
pub open spec fn put_head() -> Seq<u8> {
    seq![0x7bu8, 0x22u8, 0x53u8, 0x65u8, 0x74u8, 0x22u8, 0x3au8, 0x5bu8]
}

/// The bytes `]}`, with which the record of a `Put` ends.
pub open spec fn put_tail() -> Seq<u8> {
    seq![0x5du8, 0x7du8]
}

/// The bytes `{"Remove":`, with which the record of a `Remove` begins.
pub open spec fn remove_head() -> Seq<u8> {
    seq![0x7bu8, 0x22u8, 0x52u8, 0x65u8, 0x6du8, 0x6fu8, 0x76u8, 0x65u8, 0x22u8, 0x3au8]
}

/// The byte `}`, with which the record of a `Remove` ends.
pub open spec fn remove_tail() -> Seq<u8> {
    seq![0x7du8]
}

/// The JSON text that `serde_json::to_vec` writes for a string, or `None`
/// where it reports an error.
pub uninterp spec fn json_text(string: Seq<char>) -> Option<Seq<u8>>;

/// The string that `serde_json::from_slice` reads from a text, or `None`
/// where it reports an error.
pub uninterp spec fn json_string(text: Seq<u8>) -> Option<Seq<char>>;

/// Calls `serde_json::to_vec` on a string. The contract only gives the
/// outcome its name: the text is `json_text` of the string, and an error
/// comes exactly where `json_text` is `None`.
#[verifier::external_body]
fn to_json(string: &String) -> (res: Result<Vec<u8>, serde_json::Error>)
    ensures
        match res {
            Ok(text) => json_text(string@) == Some(text@),
            Err(_) => json_text(string@) is None,
        },
{
    serde_json::to_vec(string)
}

/// Calls `serde_json::from_slice` for a string. The contract only gives the
/// outcome its name: the string is `json_string` of the text, and an error
/// comes exactly where `json_string` is `None`.
#[verifier::external_body]
fn from_json(text: &[u8]) -> (res: Result<String, serde_json::Error>)
    ensures
        match res {
            Ok(string) => json_string(text@) == Some(string@),
            Err(_) => json_string(text@) is None,
        },
{
    serde_json::from_slice::<String>(text)
}

/// Calls `serde::de::Error::custom` to make a `serde_json::Error` that
/// carries `message`. Nothing is claimed of the error.
#[verifier::external_body]
pub(crate) fn json_error(message: &str) -> serde_json::Error {
    <serde_json::Error as serde::de::Error>::custom(message)
}

/// Whether the bytes of `word` stand in `data` from `pos` on.
pub open spec fn starts_with(data: Seq<u8>, pos: int, word: Seq<u8>) -> bool {
    &&& 0 <= pos
    &&& pos + word.len() <= data.len()
    &&& data.subrange(pos, pos + word.len()) == word
}

/// The place behind the quote that closes a string, looked for from `i` on:
/// a backslash takes the byte behind it out of play.
pub open spec fn closing(data: Seq<u8>, i: int) -> Option<int>
    decreases data.len() - i,
{
    if i < 0 || i >= data.len() {
        None
    } else if data[i] == QUOTE {
        Some(i + 1)
    } else if data[i] == BACKSLASH {
        if i + 1 < data.len() {
            closing(data, i + 2)
        } else {
            None
        }
    } else {
        closing(data, i + 1)
    }
}

/// The place behind the string that opens at `pos`, if one opens there and
/// is closed.
pub open spec fn literal_end(data: Seq<u8>, pos: int) -> Option<int> {
    if 0 <= pos < data.len() && data[pos] == QUOTE {
        closing(data, pos + 1)
    } else {
        None
    }
}

/// The record of a `Put` at `pos`: `{"Set":[`, the key, a comma, the value,
/// `]}`, nothing between them.
pub open spec fn parse_put(data: Seq<u8>, pos: int) -> Result<(CommandView, nat), Fault> {
    let k0 = pos + put_head().len();
    match literal_end(data, k0) {
        None => Err(Fault::Json),
        Some(k1) => if !(k1 < data.len() && data[k1] == COMMA) {
            Err(Fault::Json)
        } else {
            match literal_end(data, k1 + 1) {
                None => Err(Fault::Json),
                Some(v1) => if !starts_with(data, v1, put_tail()) {
                    Err(Fault::Json)
                } else {
                    match (
                        json_string(data.subrange(k0, k1)),
                        json_string(data.subrange(k1 + 1, v1)),
                    ) {
                        (Some(k), Some(v)) => Ok(
                            (CommandView::Put(k, v), (v1 + put_tail().len() - pos) as nat),
                        ),
                        _ => Err(Fault::Json),
                    }
                },
            }
        },
    }
}

/// The record of a `Remove` at `pos`: `{"Remove":`, the key, `}`.
pub open spec fn parse_remove(data: Seq<u8>, pos: int) -> Result<(CommandView, nat), Fault> {
    let k0 = pos + remove_head().len();
    match literal_end(data, k0) {
        None => Err(Fault::Json),
        Some(k1) => if !starts_with(data, k1, remove_tail()) {
            Err(Fault::Json)
        } else {
            match json_string(data.subrange(k0, k1)) {
                Some(k) => Ok((CommandView::Remove(k), (k1 + remove_tail().len() - pos) as nat)),
                None => Err(Fault::Json),
            }
        },
    }
}

/// The record that starts at `pos` in `data`: its command and its length in
/// bytes. Records lie back to back, each the JSON text of its command.
#[verifier::opaque]
pub open spec fn parse_at(data: Seq<u8>, pos: int) -> Result<(CommandView, nat), Fault> {
    if starts_with(data, pos, put_head()) {
        parse_put(data, pos)
    } else if starts_with(data, pos, remove_head()) {
        parse_remove(data, pos)
    } else {
        Err(Fault::Json)
    }
}

/// The text of a command before it is read back.
pub open spec fn text_of(command: CommandView) -> Option<Seq<u8>> {
    match command {
        CommandView::Put(k, v) => match (json_text(k), json_text(v)) {
            (Some(jk), Some(jv)) => Some(put_head() + jk + seq![COMMA] + jv + put_tail()),
            _ => None,
        },
        CommandView::Remove(k) => match json_text(k) {
            Some(jk) => Some(remove_head() + jk + remove_tail()),
            None => None,
        },
    }
}

/// The record that is written for a command: `{"Set":[key,value]}` or
/// `{"Remove":key}`, with the strings as `serde_json` writes them. A command
/// has a record only if that text reads back as the command, over its whole
/// length, and the length fits in a `usize`.
pub open spec fn record_of(command: CommandView) -> Result<Seq<u8>, Fault> {
    match text_of(command) {
        None => Err(Fault::Json),
        Some(text) => if parse_at(text, 0) != Ok::<(CommandView, nat), Fault>(
            (command, text.len()),
        ) {
            Err(Fault::Json)
        } else if text.len() > usize::MAX {
            Err(Fault::Size)
        } else {
            Ok(text)
        },
    }
}

/// The lengths of the fixed words of a record.
pub proof fn lemma_words()
    ensures
        put_head().len() == 8,
        put_tail().len() == 2,
        remove_head().len() == 10,
        remove_tail().len() == 1,
        put_head()[2] != remove_head()[2],
{
}

/// A string that is closed is closed behind where the search began, within
/// the data.
pub proof fn lemma_closing_bounds(data: Seq<u8>, i: int)
    requires
        closing(data, i) is Some,
    ensures
        i < closing(data, i)->Some_0 <= data.len(),
    decreases data.len() - i,
{
    if data[i] == QUOTE {
    } else if data[i] == BACKSLASH {
        lemma_closing_bounds(data, i + 2);
    } else {
        lemma_closing_bounds(data, i + 1);
    }
}

/// The search for the closing quote reads only the bytes up to that quote.
pub proof fn lemma_closing_local(a: Seq<u8>, i: int, b: Seq<u8>, j: int)
    requires
        closing(a, i) is Some,
        0 <= j,
        j + (closing(a, i)->Some_0 - i) <= b.len(),
        forall|t: int| i <= t < closing(a, i)->Some_0 ==> a[t] == b[t - i + j],
    ensures
        closing(b, j) == Some(closing(a, i)->Some_0 - i + j),
    decreases a.len() - i,
{
    lemma_closing_bounds(a, i);
    assert(a[i] == b[j]);
    if a[i] == QUOTE {
    } else if a[i] == BACKSLASH {
        lemma_closing_bounds(a, i + 2);
        lemma_closing_local(a, i + 2, b, j + 2);
    } else {
        lemma_closing_bounds(a, i + 1);
        lemma_closing_local(a, i + 1, b, j + 1);
    }
}

/// Bytes that are not a record are faulty as JSON, never otherwise.
pub proof fn lemma_parse_fault(data: Seq<u8>, pos: int)
    ensures
        parse_at(data, pos) is Err ==> parse_at(data, pos) == Err::<(CommandView, nat), Fault>(
            Fault::Json,
        ),
{
    reveal(parse_at);
}

/// A record that parses takes at least one byte and ends within the data.
pub proof fn lemma_parse_bounds(data: Seq<u8>, pos: int)
    requires
        parse_at(data, pos) is Ok,
    ensures
        0 <= pos,
        0 < parse_at(data, pos)->Ok_0.1,
        pos + parse_at(data, pos)->Ok_0.1 <= data.len(),
{
    reveal(parse_at);
    lemma_words();
    if starts_with(data, pos, put_head()) {
        let k0 = pos + put_head().len();
        let k1 = literal_end(data, k0)->Some_0;
        lemma_closing_bounds(data, k0 + 1);
        lemma_closing_bounds(data, k1 + 2);
    } else {
        let k0 = pos + remove_head().len();
        lemma_closing_bounds(data, k0 + 1);
    }
}

/// A record reads only its own bytes: wherever the same bytes lie, they are
/// the same record.
pub proof fn lemma_parse_local(a: Seq<u8>, p: int, b: Seq<u8>, q: int)
    requires
        parse_at(a, p) is Ok,
        0 <= q,
        q + parse_at(a, p)->Ok_0.1 <= b.len(),
        b.subrange(q, q + parse_at(a, p)->Ok_0.1) == a.subrange(p, p + parse_at(a, p)->Ok_0.1),
    ensures
        parse_at(b, q) == parse_at(a, p),
{
    lemma_parse_bounds(a, p);
    reveal(parse_at);
    lemma_words();
    let len = parse_at(a, p)->Ok_0.1 as int;
    let d = q - p;
    assert forall|t: int| p <= t < p + len implies a[t] == b[t + d] by {
        assert(a.subrange(p, p + len)[t - p] == b.subrange(q, q + len)[t - p]);
    }
    if starts_with(a, p, put_head()) {
        let k0 = p + put_head().len();
        let k1 = literal_end(a, k0)->Some_0;
        let v1 = literal_end(a, k1 + 1)->Some_0;
        lemma_closing_bounds(a, k0 + 1);
        lemma_closing_bounds(a, k1 + 2);
        assert(b.subrange(q, q + put_head().len()) =~= a.subrange(p, p + put_head().len()));
        lemma_closing_local(a, k0 + 1, b, k0 + 1 + d);
        lemma_closing_local(a, k1 + 2, b, k1 + 2 + d);
        assert(b.subrange(v1 + d, v1 + d + put_tail().len()) =~= a.subrange(
            v1,
            v1 + put_tail().len(),
        ));
        assert(b.subrange(k0 + d, k1 + d) =~= a.subrange(k0, k1));
        assert(b.subrange(k1 + 1 + d, v1 + d) =~= a.subrange(k1 + 1, v1));
    } else {
        let k0 = p + remove_head().len();
        let k1 = literal_end(a, k0)->Some_0;
        lemma_closing_bounds(a, k0 + 1);
        assert(b.subrange(q, q + remove_head().len()) =~= a.subrange(p, p + remove_head().len()));
        assert(!starts_with(b, q, put_head())) by {
            assert(a[p + 2] == b[q + 2]);
            if starts_with(b, q, put_head()) {
                assert(b.subrange(q, q + put_head().len())[2] == put_head()[2]);
                assert(a.subrange(p, p + remove_head().len())[2] == remove_head()[2]);
            }
        }
        lemma_closing_local(a, k0 + 1, b, k0 + 1 + d);
        assert(b.subrange(k1 + d, k1 + d + remove_tail().len()) =~= a.subrange(
            k1,
            k1 + remove_tail().len(),
        ));
        assert(b.subrange(k0 + d, k1 + d) =~= a.subrange(k0, k1));
    }
}

/// The record of a command reads back as that command, over its whole length.
pub proof fn lemma_record_reads_back(command: CommandView)
    requires
        record_of(command) is Ok,
    ensures
        parse_at(record_of(command)->Ok_0, 0) == Ok::<(CommandView, nat), Fault>(
            (command, record_of(command)->Ok_0.len()),
        ),
        0 < record_of(command)->Ok_0.len() <= usize::MAX,
{
    lemma_parse_bounds(record_of(command)->Ok_0, 0);
}

/// Whether two commands are the same.
fn same_command(a: &Command, b: &Command) -> (same: bool)
    ensures
        same == (a@ == b@),
{
    match (a, b) {
        (Command::Put(k1, v1), Command::Put(k2, v2)) => *k1 == *k2 && *v1 == *v2,
        (Command::Remove(k1), Command::Remove(k2)) => *k1 == *k2,
        _ => false,
    }
}

/// Whether the bytes of `word` stand in `data` from `pos` on.
fn has_word(data: &[u8], pos: usize, word: &Vec<u8>) -> (has: bool)
    ensures
        has == starts_with(data@, pos as int, word@),
{
    if pos > data.len() || data.len() - pos < word.len() {
        return false;
    }
    let mut i: usize = 0;
    while i < word.len()
        invariant
            i <= word.len(),
            pos + word.len() <= data.len(),
            forall|t: int| 0 <= t < i ==> data[pos + t] == word[t],
        decreases word.len() - i,
    {
        if data[pos + i] != word[i] {
            assert(data@.subrange(pos as int, pos + word.len())[i as int] != word@[i as int]);
            return false;
        }
        i += 1;
    }
    assert(data@.subrange(pos as int, pos + word.len()) =~= word@);
    true
}

/// The place behind the string that opens at `pos`, if one opens there and
/// is closed.
fn find_literal_end(data: &[u8], pos: usize) -> (end: Option<usize>)
    ensures
        match end {
            Some(e) => literal_end(data@, pos as int) == Some(e as int),
            None => literal_end(data@, pos as int) is None,
        },
{
    if pos >= data.len() || data[pos] != QUOTE {
        return None;
    }
    let mut i: usize = pos + 1;
    while i < data.len()
        invariant
            pos < i <= data.len(),
            data[pos as int] == QUOTE,
            closing(data@, i as int) == closing(data@, pos + 1),
        decreases data.len() - i,
    {
        if data[i] == QUOTE {
            assert(closing(data@, i as int) == Some(i + 1));
            return Some(i + 1);
        } else if data[i] == BACKSLASH {
            if data.len() - i < 2 {
                return None;
            }
            i += 2;
        } else {
            i += 1;
        }
    }
    None
}

/// The bytes `{"Set":[`.
fn put_head_bytes() -> (word: Vec<u8>)
    ensures
        word@ == put_head(),
{
    let word = vec![0x7bu8, 0x22u8, 0x53u8, 0x65u8, 0x74u8, 0x22u8, 0x3au8, 0x5bu8];
    assert(word@ =~= put_head());
    word
}

/// The bytes `]}`.
fn put_tail_bytes() -> (word: Vec<u8>)
    ensures
        word@ == put_tail(),
{
    let word = vec![0x5du8, 0x7du8];
    assert(word@ =~= put_tail());
    word
}

/// The bytes `{"Remove":`.
fn remove_head_bytes() -> (word: Vec<u8>)
    ensures
        word@ == remove_head(),
{
    let word = vec![0x7bu8, 0x22u8, 0x52u8, 0x65u8, 0x6du8, 0x6fu8, 0x76u8, 0x65u8, 0x22u8, 0x3au8];
    assert(word@ =~= remove_head());
    word
}

/// The byte `}`.
fn remove_tail_bytes() -> (word: Vec<u8>)
    ensures
        word@ == remove_tail(),
{
    let word = vec![0x7du8];
    assert(word@ =~= remove_tail());
    word
}

/// Decodes the record of a `Put` whose head stands at `pos`.
fn decode_put(data: &[u8], pos: usize) -> (res: Result<(Command, usize), KvError>)
    requires
        starts_with(data@, pos as int, put_head()),
    ensures
        match res {
            Ok((command, len)) => parse_put(data@, pos as int) == Ok::<(CommandView, nat), Fault>(
                (command@, len as nat),
            ),
            Err(e) => parse_put(data@, pos as int) == Err::<(CommandView, nat), Fault>(
                Fault::Json,
            ) && e is SerdeError,
        },
{
    proof {
        lemma_words();
    }
    let total = data.len();
    assert(pos + 8 <= total);
    let k0 = pos + 8;
    let k1 = match find_literal_end(data, k0) {
        Some(k1) => k1,
        None => {
            return Err(KvError::SerdeError(json_error("expected a string as the key")));
        },
    };
    proof {
        lemma_closing_bounds(data@, k0 + 1);
    }
    if k1 >= data.len() || data[k1] != COMMA {
        return Err(KvError::SerdeError(json_error("expected `,` behind the key")));
    }
    let v1 = match find_literal_end(data, k1 + 1) {
        Some(v1) => v1,
        None => {
            return Err(KvError::SerdeError(json_error("expected a string as the value")));
        },
    };
    proof {
        lemma_closing_bounds(data@, k1 + 2);
    }
    if !has_word(data, v1, &put_tail_bytes()) {
        return Err(KvError::SerdeError(json_error("expected `]}` behind the value")));
    }
    let key = match from_json(slice_subrange(data, k0, k1)) {
        Ok(key) => key,
        Err(e) => {
            return Err(KvError::SerdeError(e));
        },
    };
    let value = match from_json(slice_subrange(data, k1 + 1, v1)) {
        Ok(value) => value,
        Err(e) => {
            return Err(KvError::SerdeError(e));
        },
    };
    Ok((Command::Put(key, value), v1 + 2 - pos))
}

/// Decodes the record of a `Remove` whose head stands at `pos`.
fn decode_remove(data: &[u8], pos: usize) -> (res: Result<(Command, usize), KvError>)
    requires
        starts_with(data@, pos as int, remove_head()),
    ensures
        match res {
            Ok((command, len)) => parse_remove(data@, pos as int) == Ok::<
                (CommandView, nat),
                Fault,
            >((command@, len as nat)),
            Err(e) => parse_remove(data@, pos as int) == Err::<(CommandView, nat), Fault>(
                Fault::Json,
            ) && e is SerdeError,
        },
{
    proof {
        lemma_words();
    }
    let total = data.len();
    assert(pos + 10 <= total);
    let k0 = pos + 10;
    let k1 = match find_literal_end(data, k0) {
        Some(k1) => k1,
        None => {
            return Err(KvError::SerdeError(json_error("expected a string as the key")));
        },
    };
    proof {
        lemma_closing_bounds(data@, k0 + 1);
    }
    if !has_word(data, k1, &remove_tail_bytes()) {
        return Err(KvError::SerdeError(json_error("expected `}` behind the key")));
    }
    let key = match from_json(slice_subrange(data, k0, k1)) {
        Ok(key) => key,
        Err(e) => {
            return Err(KvError::SerdeError(e));
        },
    };
    Ok((Command::Remove(key), k1 + 1 - pos))
}

/// Decodes the record that starts at `pos` in `data`, and says how many bytes
/// it takes. Bytes that are not a record give a `SerdeError`.
pub fn decode_at(data: &[u8], pos: usize) -> (res: Result<(Command, usize), KvError>)
    ensures
        match res {
            Ok((command, len)) => parse_at(data@, pos as int) == Ok::<(CommandView, nat), Fault>(
                (command@, len as nat),
            ),
            Err(e) => parse_at(data@, pos as int) is Err && e.reports(
                parse_at(data@, pos as int)->Err_0,
            ),
        },
{
    proof {
        reveal(parse_at);
    }
    if has_word(data, pos, &put_head_bytes()) {
        decode_put(data, pos)
    } else if has_word(data, pos, &remove_head_bytes()) {
        decode_remove(data, pos)
    } else {
        Err(KvError::SerdeError(json_error("expected `{\"Set\":[` or `{\"Remove\":`")))
    }
}

/// Encodes a command as a record.
///
/// The strings are written by `serde_json`, and the record is read back
/// before it is accepted: a record that this function returns always decodes
/// to the command it was made from.
pub fn encode(command: &Command) -> (res: Result<Vec<u8>, KvError>)
    ensures
        match res {
            Ok(record) => record_of(command@) == Ok::<Seq<u8>, Fault>(record@),
            Err(e) => record_of(command@) is Err && e.reports(record_of(command@)->Err_0),
        },
{
    let mut record: Vec<u8> = Vec::new();
    match command {
        Command::Put(key, value) => {
            let mut key_text = match to_json(key) {
                Ok(text) => text,
                Err(e) => {
                    return Err(KvError::SerdeError(e));
                },
            };
            let mut value_text = match to_json(value) {
                Ok(text) => text,
                Err(e) => {
                    return Err(KvError::SerdeError(e));
                },
            };
            let ghost jk = key_text@;
            let ghost jv = value_text@;
            let mut head = put_head_bytes();
            let mut tail = put_tail_bytes();
            record.append(&mut head);
            record.append(&mut key_text);
            record.push(COMMA);
            record.append(&mut value_text);
            record.append(&mut tail);
            assert(record@ =~= put_head() + jk + seq![COMMA] + jv + put_tail());
        },
        Command::Remove(key) => {
            let mut key_text = match to_json(key) {
                Ok(text) => text,
                Err(e) => {
                    return Err(KvError::SerdeError(e));
                },
            };
            let ghost jk = key_text@;
            let mut head = remove_head_bytes();
            let mut tail = remove_tail_bytes();
            record.append(&mut head);
            record.append(&mut key_text);
            record.append(&mut tail);
            assert(record@ =~= remove_head() + jk + remove_tail());
        },
    }
    assert(text_of(command@) == Some(record@));
    match decode_at(record.as_slice(), 0) {
        Ok((back, len)) => {
            if len == record.len() && same_command(&back, command) {
                assert(parse_at(record@, 0) == Ok::<(CommandView, nat), Fault>(
                    (command@, record@.len()),
                ));
                assert(record@.len() <= usize::MAX);
                Ok(record)
            } else {
                Err(KvError::SerdeError(json_error("the record does not read back")))
            }
        },
        Err(e) => {
            proof {
                lemma_parse_fault(record@, 0);
            }
            Err(e)
        },
    }
}

} // verus!
