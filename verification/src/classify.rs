//! Classification of the error lines that a server sends.

use crate::text::{chars_of, same_text};
use crate::types::{make_extension_error, ErrorKind, ErrorModel, RedisError};
use vstd::prelude::*;
use vstd::string::*;

verus! {

/// The number of characters before the first space of `text`, or the length
/// of `text` where it holds no space.
pub open spec fn code_len(text: Seq<char>) -> nat
    decreases text.len(),
{
    if text.len() == 0 || text[0] == ' ' {
        0
    } else {
        1 + code_len(text.drop_first())
    }
}

/// The code of an error line: what stands before its first space.
pub open spec fn code_of(text: Seq<char>) -> Seq<char> {
    text.take(code_len(text) as int)
}

/// The detail of an error line: what stands after its first space, if it
/// holds one.
pub open spec fn detail_of(text: Seq<char>) -> Option<Seq<char>> {
    if code_len(text) < text.len() {
        Some(text.skip(code_len(text) as int + 1))
    } else {
        None
    }
}

/// The fixed table of error codes. The match is exact and case-sensitive.
pub open spec fn known_kind(code: Seq<char>) -> Option<ErrorKind> {
    if code == "ERR"@ {
        Some(ErrorKind::ResponseError)
    } else if code == "EXECABORT"@ {
        Some(ErrorKind::ExecAbortError)
    } else if code == "LOADING"@ {
        Some(ErrorKind::BusyLoadingError)
    } else if code == "NOSCRIPT"@ {
        Some(ErrorKind::NoScriptError)
    } else if code == "MOVED"@ {
        Some(ErrorKind::Moved)
    } else if code == "ASK"@ {
        Some(ErrorKind::Ask)
    } else if code == "TRYAGAIN"@ {
        Some(ErrorKind::TryAgain)
    } else if code == "CLUSTERDOWN"@ {
        Some(ErrorKind::ClusterDown)
    } else if code == "CROSSSLOT"@ {
        Some(ErrorKind::CrossSlot)
    } else if code == "MASTERDOWN"@ {
        Some(ErrorKind::MasterDown)
    } else if code == "READONLY"@ {
        Some(ErrorKind::ReadOnly)
    } else {
        None
    }
}

/// The error that the text of an error line stands for. Every text stands for
/// one: a code outside the table makes an extension error tagged with it.
pub open spec fn classify(text: Seq<char>) -> ErrorModel {
    match known_kind(code_of(text)) {
        Some(kind) => ErrorModel::Server { kind, detail: detail_of(text) },
        None => ErrorModel::Extension { code: code_of(text), detail: detail_of(text) },
    }
}

pub proof fn lemma_code_len(text: Seq<char>, k: int)
    requires
        0 <= k <= text.len(),
        forall|i: int| 0 <= i < k ==> #[trigger] text[i] != ' ',
        k == text.len() || text[k] == ' ',
    ensures
        code_len(text) == k,
    decreases k,
{
    if k > 0 {
        let rest = text.drop_first();
        assert(text[0] != ' ');
        assert forall|i: int| 0 <= i < k - 1 implies #[trigger] rest[i] != ' ' by {
            assert(rest[i] == text[i + 1]);
        }
        lemma_code_len(rest, k - 1);
    }
}

/// The kind that the fixed table gives for `code`.
pub fn lookup_kind(code: &str) -> (r: Option<ErrorKind>)
    ensures
        r == known_kind(code@),
{
    if same_text(code, "ERR") {
        Some(ErrorKind::ResponseError)
    } else if same_text(code, "EXECABORT") {
        Some(ErrorKind::ExecAbortError)
    } else if same_text(code, "LOADING") {
        Some(ErrorKind::BusyLoadingError)
    } else if same_text(code, "NOSCRIPT") {
        Some(ErrorKind::NoScriptError)
    } else if same_text(code, "MOVED") {
        Some(ErrorKind::Moved)
    } else if same_text(code, "ASK") {
        Some(ErrorKind::Ask)
    } else if same_text(code, "TRYAGAIN") {
        Some(ErrorKind::TryAgain)
    } else if same_text(code, "CLUSTERDOWN") {
        Some(ErrorKind::ClusterDown)
    } else if same_text(code, "CROSSSLOT") {
        Some(ErrorKind::CrossSlot)
    } else if same_text(code, "MASTERDOWN") {
        Some(ErrorKind::MasterDown)
    } else if same_text(code, "READONLY") {
        Some(ErrorKind::ReadOnly)
    } else {
        None
    }
}

/// Turns the text of an error line into a typed error. Never fails.
pub fn classify_error(text: &str) -> (e: RedisError)
    ensures
        e@ == classify(text@),
        e@.from_server(),
{
    let chars = chars_of(text);
    let n: usize = chars.len();
    let mut k: usize = 0;
    while k < n && chars[k] != ' '
        invariant
            k <= n == chars.len(),
            forall|i: int| 0 <= i < k ==> #[trigger] chars@[i] != ' ',
        decreases n - k,
    {
        k += 1;
    }
    proof {
        lemma_code_len(text@, k as int);
    }
    let code = text.substring_char(0, k);
    assert(code@ == code_of(text@));
    let detail = if k < n {
        let d = text.substring_char(k + 1, n);
        assert(d@ == text@.skip(k + 1));
        Some(d)
    } else {
        None
    };
    match lookup_kind(code) {
        Some(kind) => {
            let detail = match detail {
                Some(d) => Some(d.to_owned()),
                None => None,
            };
            RedisError::server(kind, detail)
        },
        None => make_extension_error(code, detail),
    }
}

} // verus!
