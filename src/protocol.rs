//! The text protocol between a running script and the display: messages
//! tagged `[PWD] `, `[BTN] ` or `[b] `, and credential documents whose
//! `[PWD]` lines carry `service::secret`.
use vstd::prelude::*;
use crate::path::{split_on, split_pieces, texts};

verus! {

/// `c` has the Unicode `White_Space` property.
pub open spec fn is_white_space(c: char) -> bool {
    let u = c as u32;
    ||| 0x9 <= u <= 0xD
    ||| u == 0x20
    ||| u == 0x85
    ||| u == 0xA0
    ||| u == 0x1680
    ||| 0x2000 <= u <= 0x200A
    ||| u == 0x2028
    ||| u == 0x2029
    ||| u == 0x202F
    ||| u == 0x205F
    ||| u == 0x3000
}

/// Whether `c` is white space.
pub fn white_space(c: char) -> (r: bool)
    ensures
        r == is_white_space(c),
{
    let u = c as u32;
    (0x9 <= u && u <= 0xD) || u == 0x20 || u == 0x85 || u == 0xA0 || u == 0x1680 || (0x2000 <= u
        && u <= 0x200A) || u == 0x2028 || u == 0x2029 || u == 0x202F || u == 0x205F || u == 0x3000
}

/// Number of white-space characters at the start of `s`.
pub open spec fn leading_space(s: Seq<char>) -> nat
    decreases s.len(),
{
    if s.len() > 0 && is_white_space(s[0]) {
        1 + leading_space(s.drop_first())
    } else {
        0
    }
}

/// Number of white-space characters at the end of `s`.
pub open spec fn trailing_space(s: Seq<char>) -> nat
    decreases s.len(),
{
    if s.len() > 0 && is_white_space(s.last()) {
        1 + trailing_space(s.drop_last())
    } else {
        0
    }
}

/// `s` without the white space at its start and at its end.
pub open spec fn trimmed(s: Seq<char>) -> Seq<char> {
    let rest = s.subrange(leading_space(s) as int, s.len() as int);
    rest.subrange(0, rest.len() - trailing_space(rest))
}

proof fn lemma_leading_space(s: Seq<char>, i: int)
    requires
        0 <= i <= s.len(),
        forall|j: int| 0 <= j < i ==> is_white_space(#[trigger] s[j]),
        i < s.len() ==> !is_white_space(s[i]),
    ensures
        leading_space(s) == i,
    decreases i,
{
    if i > 0 {
        assert forall|j: int| 0 <= j < i - 1 implies is_white_space(#[trigger] s.drop_first()[j]) by {
            assert(s.drop_first()[j] == s[j + 1]);
        }
        lemma_leading_space(s.drop_first(), i - 1);
    }
}

proof fn lemma_trailing_space(s: Seq<char>, k: int)
    requires
        0 <= k <= s.len(),
        forall|j: int| s.len() - k <= j < s.len() ==> is_white_space(#[trigger] s[j]),
        k < s.len() ==> !is_white_space(s[s.len() - k - 1]),
    ensures
        trailing_space(s) == k,
    decreases k,
{
    if k > 0 {
        let t = s.drop_last();
        assert forall|j: int| t.len() - (k - 1) <= j < t.len() implies is_white_space(#[trigger] t[j]) by {
            assert(t[j] == s[j]);
        }
        if k - 1 < t.len() {
            assert(t[t.len() - (k - 1) - 1] == s[s.len() - k - 1]);
        }
        lemma_trailing_space(t, k - 1);
    }
}

/// `s` without the white space at its start and at its end.
pub fn trim(s: &str) -> (r: String)
    ensures
        r@ == trimmed(s@),
{
    let n = s.unicode_len();
    let mut a: usize = 0;
    while a < n && white_space(s.get_char(a))
        invariant
            a <= n,
            n == s@.len(),
            forall|j: int| 0 <= j < a ==> is_white_space(#[trigger] s@[j]),
        decreases n - a,
    {
        a = a + 1;
    }
    proof {
        lemma_leading_space(s@, a as int);
    }
    let ghost rest = s@.subrange(a as int, n as int);
    let mut b: usize = n;
    while b > a && white_space(s.get_char(b - 1))
        invariant
            a <= b <= n,
            n == s@.len(),
            rest == s@.subrange(a as int, n as int),
            forall|j: int| b <= j < n ==> is_white_space(#[trigger] s@[j]),
        decreases b,
    {
        b = b - 1;
    }
    proof {
        assert forall|j: int| rest.len() - (n - b) <= j < rest.len() implies is_white_space(
            #[trigger] rest[j],
        ) by {
            assert(rest[j] == s@[a + j]);
        }
        if n - b < rest.len() {
            assert(rest[rest.len() - (n - b) - 1] == s@[b - 1]);
        }
        lemma_trailing_space(rest, (n - b) as int);
        assert(rest.subrange(0, rest.len() - (n - b)) =~= s@.subrange(a as int, b as int));
    }
    String::from_str(s.substring_char(a, b))
}

/// Index of the first `::` in `s` at or after `i`; `s.len()` when there is
/// none.
pub open spec fn first_separator_from(s: Seq<char>, i: int) -> int
    decreases s.len() - i,
{
    if i < 0 || i + 1 >= s.len() {
        s.len() as int
    } else if s[i] == ':' && s[i + 1] == ':' {
        i
    } else {
        first_separator_from(s, i + 1)
    }
}

/// The service and secret of a credential record `service::secret`, split at
/// the first `::` and trimmed; without `::` all of it is the service and the
/// secret is empty.
pub open spec fn credential_fields(s: Seq<char>) -> (Seq<char>, Seq<char>) {
    let k = first_separator_from(s, 0);
    if k < s.len() {
        (trimmed(s.subrange(0, k)), trimmed(s.subrange(k + 2, s.len() as int)))
    } else {
        (trimmed(s), Seq::empty())
    }
}

proof fn lemma_first_separator_bounds(s: Seq<char>, i: int)
    requires
        0 <= i,
    ensures
        first_separator_from(s, i) == s.len() || (i <= first_separator_from(s, i)
            && first_separator_from(s, i) + 1 < s.len()),
    decreases s.len() - i,
{
    if i + 1 < s.len() && !(s[i] == ':' && s[i + 1] == ':') {
        lemma_first_separator_bounds(s, i + 1);
    }
}

/// Splits a credential record into its service and secret (see
/// `credential_fields`).
pub fn parse_credential(s: &str) -> (r: (String, String))
    ensures
        (r.0@, r.1@) == credential_fields(s@),
{
    let n = s.unicode_len();
    let mut i: usize = 0;
    while i < n && i + 1 < n && !(s.get_char(i) == ':' && s.get_char(i + 1) == ':')
        invariant
            n == s@.len(),
            i <= n,
            first_separator_from(s@, 0) == first_separator_from(s@, i as int),
        decreases n - i,
    {
        i = i + 1;
    }
    proof {
        lemma_first_separator_bounds(s@, 0);
    }
    if i < n && i + 1 < n {
        let service = trim(s.substring_char(0, i));
        let secret = trim(s.substring_char(i + 2, n));
        (service, secret)
    } else {
        (trim(s), String::new())
    }
}

/// `p` is a prefix of `s`.
pub open spec fn has_prefix(s: Seq<char>, p: Seq<char>) -> bool {
    p.len() <= s.len() && s.subrange(0, p.len() as int) == p
}

/// What follows `prefix` in `s`, when `s` starts with it.
pub fn strip_prefix<'a>(s: &'a str, prefix: &str) -> (r: Option<&'a str>)
    ensures
        r is Some == has_prefix(s@, prefix@),
        r matches Some(rest) ==> rest@ == s@.subrange(prefix@.len() as int, s@.len() as int),
{
    let n = s.unicode_len();
    let m = prefix.unicode_len();
    if m > n {
        return None;
    }
    let mut i: usize = 0;
    while i < m
        invariant
            m <= n,
            n == s@.len(),
            m == prefix@.len(),
            i <= m,
            s@.subrange(0, i as int) == prefix@.subrange(0, i as int),
        decreases m - i,
    {
        if s.get_char(i) != prefix.get_char(i) {
            assert(s@.subrange(0, m as int)[i as int] != prefix@[i as int]);
            return None;
        }
        assert(s@.subrange(0, i + 1) =~= s@.subrange(0, i as int).push(s@[i as int]));
        assert(prefix@.subrange(0, i + 1) =~= prefix@.subrange(0, i as int).push(prefix@[i as int]));
        i = i + 1;
    }
    assert(prefix@.subrange(0, m as int) =~= prefix@);
    Some(s.substring_char(m, n))
}

/// `p` is a suffix of `s`.
pub open spec fn has_suffix(s: Seq<char>, p: Seq<char>) -> bool {
    p.len() <= s.len() && s.subrange(s.len() - p.len(), s.len() as int) == p
}

/// Whether `s` ends with `suffix`.
pub fn ends_with(s: &str, suffix: &str) -> (r: bool)
    ensures
        r == has_suffix(s@, suffix@),
{
    let n = s.unicode_len();
    let m = suffix.unicode_len();
    if m > n {
        return false;
    }
    let start = n - m;
    let mut i: usize = 0;
    while i < m
        invariant
            m <= n,
            start == n - m,
            n == s@.len(),
            m == suffix@.len(),
            i <= m,
            s@.subrange(start as int, start + i) == suffix@.subrange(0, i as int),
        decreases m - i,
    {
        if s.get_char(start + i) != suffix.get_char(i) {
            assert(s@.subrange(start as int, n as int)[i as int] != suffix@[i as int]);
            return false;
        }
        assert(s@.subrange(start as int, start + i + 1) =~= s@.subrange(start as int, start + i).push(
            s@[start + i],
        ));
        assert(suffix@.subrange(0, i + 1) =~= suffix@.subrange(0, i as int).push(suffix@[i as int]));
        i = i + 1;
    }
    assert(suffix@.subrange(0, m as int) =~= suffix@);
    true
}

/// How a file's content is shown.
#[derive(Clone, Copy, PartialEq, Eq, Structural, Debug)]
pub enum DocumentKind {
    /// A credential document: its `[PWD]` lines are credential records.
    Credentials,
    /// A script: selecting it runs it and shows the messages it sends.
    Script,
    /// Plain text, line by line.
    Text,
}

/// The kind of a file by its name: `.pwd` for credentials, `.nwtz!` for a
/// script, anything else for text.
pub open spec fn kind_of(name: Seq<char>) -> DocumentKind {
    if has_suffix(name, ".pwd"@) {
        DocumentKind::Credentials
    } else if has_suffix(name, ".nwtz!"@) {
        DocumentKind::Script
    } else {
        DocumentKind::Text
    }
}

/// The kind of the file called `name` (see `kind_of`).
pub fn document_kind(name: &str) -> (r: DocumentKind)
    ensures
        r == kind_of(name@),
{
    if ends_with(name, ".pwd") {
        DocumentKind::Credentials
    } else if ends_with(name, ".nwtz!") {
        DocumentKind::Script
    } else {
        DocumentKind::Text
    }
}

/// How a line of a message log or of a credential document is shown.
#[derive(Clone, Debug)]
pub enum LineKind {
    /// A service name with a control that reveals or copies its secret.
    Credential { service: String, secret: String },
    /// Highlighted text.
    Highlight(String),
    /// Plain text.
    Plain(String),
}

/// The value of a `LineKind`.
pub enum LineShape {
    Credential(Seq<char>, Seq<char>),
    Highlight(Seq<char>),
    Plain(Seq<char>),
}

impl LineKind {
    pub open spec fn shape(self) -> LineShape {
        match self {
            LineKind::Credential { service, secret } => LineShape::Credential(service@, secret@),
            LineKind::Highlight(t) => LineShape::Highlight(t@),
            LineKind::Plain(t) => LineShape::Plain(t@),
        }
    }
}

/// How a message of the log is shown: `[PWD] service::secret` as a credential,
/// `[BTN] text` as highlighted text, anything else as it is.
pub open spec fn message_shape(m: Seq<char>) -> LineShape {
    let pwd = seq!['[', 'P', 'W', 'D', ']', ' '];
    let btn = seq!['[', 'B', 'T', 'N', ']', ' '];
    if has_prefix(m, pwd) {
        let f = credential_fields(m.subrange(6, m.len() as int));
        LineShape::Credential(f.0, f.1)
    } else if has_prefix(m, btn) {
        LineShape::Highlight(m.subrange(6, m.len() as int))
    } else {
        LineShape::Plain(m)
    }
}

/// How a line of a credential document is shown: a line that starts with
/// `[PWD]` is a credential record, any other is text.
pub open spec fn document_line_shape(l: Seq<char>) -> LineShape {
    let pwd = seq!['[', 'P', 'W', 'D', ']'];
    if has_prefix(l, pwd) {
        let f = credential_fields(l.subrange(5, l.len() as int));
        LineShape::Credential(f.0, f.1)
    } else {
        LineShape::Plain(l)
    }
}

/// `s` holds no `::` and does not end with `:`, so that a `::` written after
/// it is the first one.
pub open spec fn separator_free(s: Seq<char>) -> bool {
    &&& forall|j: int| 0 <= j < s.len() - 1 ==> !(s[j] == ':' && #[trigger] s[j + 1] == ':')
    &&& s.len() > 0 ==> s.last() != ':'
}

proof fn lemma_first_separator_at(s: Seq<char>, i: int, k: int)
    requires
        0 <= i <= k,
        k + 1 < s.len(),
        s[k] == ':' && s[k + 1] == ':',
        forall|j: int| i <= j < k ==> !(s[j] == ':' && #[trigger] s[j + 1] == ':'),
    ensures
        first_separator_from(s, i) == k,
    decreases k - i,
{
    if i < k {
        lemma_first_separator_at(s, i + 1, k);
    }
}

/// A `[BTN] ` message decodes to its text as highlighted text.
pub proof fn lemma_button_round_trip(text: Seq<char>)
    ensures
        message_shape("[BTN] "@ + text) == LineShape::Highlight(text),
{
    reveal_strlit("[BTN] ");
    let m = "[BTN] "@ + text;
    assert(m.subrange(0, 6) =~= seq!['[', 'B', 'T', 'N', ']', ' ']);
    assert(m.subrange(0, 6)[1] != seq!['[', 'P', 'W', 'D', ']', ' '][1]);
    assert(m.subrange(6, m.len() as int) =~= text);
}

/// A `[PWD] ` message decodes to the service and secret it was made of,
/// trimmed, when the service holds no `::` and does not end with `:`.
pub proof fn lemma_password_round_trip(service: Seq<char>, secret: Seq<char>)
    requires
        separator_free(service),
    ensures
        message_shape("[PWD] "@ + service + "::"@ + secret) == LineShape::Credential(
            trimmed(service),
            trimmed(secret),
        ),
{
    reveal_strlit("[PWD] ");
    reveal_strlit("::");
    let m = "[PWD] "@ + service + "::"@ + secret;
    assert(m.subrange(0, 6) =~= seq!['[', 'P', 'W', 'D', ']', ' ']);
    let rest = m.subrange(6, m.len() as int);
    assert(rest =~= service + seq![':', ':'] + secret);
    let k = service.len() as int;
    assert forall|j: int| 0 <= j < k implies !(rest[j] == ':' && #[trigger] rest[j + 1] == ':') by {
        assert(rest[j] == service[j]);
        if j + 1 < k {
            assert(rest[j + 1] == service[j + 1]);
        }
    }
    lemma_first_separator_at(rest, 0, k);
    assert(rest.subrange(0, k) =~= service);
    assert(rest.subrange(k + 2, rest.len() as int) =~= secret);
}

/// Decodes a message of the log (see `message_shape`).
pub fn classify_message(msg: &str) -> (r: LineKind)
    ensures
        r.shape() == message_shape(msg@),
{
    proof {
        reveal_strlit("[PWD] ");
        reveal_strlit("[BTN] ");
        assert("[PWD] "@ =~= seq!['[', 'P', 'W', 'D', ']', ' ']);
        assert("[BTN] "@ =~= seq!['[', 'B', 'T', 'N', ']', ' ']);
    }
    match strip_prefix(msg, "[PWD] ") {
        Some(rest) => {
            let (service, secret) = parse_credential(rest);
            LineKind::Credential { service, secret }
        },
        None => match strip_prefix(msg, "[BTN] ") {
            Some(rest) => LineKind::Highlight(String::from_str(rest)),
            None => LineKind::Plain(String::from_str(msg)),
        },
    }
}

/// Decodes one line of a credential document (see `document_line_shape`).
pub fn classify_document_line(line: &str) -> (r: LineKind)
    ensures
        r.shape() == document_line_shape(line@),
{
    proof {
        reveal_strlit("[PWD]");
        assert("[PWD]"@ =~= seq!['[', 'P', 'W', 'D', ']']);
    }
    match strip_prefix(line, "[PWD]") {
        Some(rest) => {
            let (service, secret) = parse_credential(rest);
            LineKind::Credential { service, secret }
        },
        None => LineKind::Plain(String::from_str(line)),
    }
}

/// The lines of a credential document, each decoded, in order.
pub fn credential_document(content: &str) -> (r: Vec<LineKind>)
    ensures
        r@.len() == split_on(content@, '\n').len(),
        forall|i: int|
            0 <= i < r@.len() ==> #[trigger] r@[i].shape() == document_line_shape(
                split_on(content@, '\n')[i],
            ),
{
    let lines = split_pieces(content, '\n');
    let mut out: Vec<LineKind> = Vec::new();
    let mut i: usize = 0;
    while i < lines.len()
        invariant
            i <= lines@.len(),
            texts(lines@) == split_on(content@, '\n'),
            out@.len() == i,
            forall|j: int|
                0 <= j < i ==> #[trigger] out@[j].shape() == document_line_shape(lines@[j]@),
        decreases lines@.len() - i,
    {
        out.push(classify_document_line(lines[i].as_str()));
        i = i + 1;
    }
    proof {
        assert forall|j: int| 0 <= j < out@.len() implies #[trigger] out@[j].shape()
            == document_line_shape(split_on(content@, '\n')[j]) by {
            assert(texts(lines@)[j] == lines@[j]@);
        }
    }
    out
}

/// The message that the script function `log` sends for one argument: the
/// argument's text as it is.
pub fn log_message(text: &str) -> (r: String)
    ensures
        r@ == text@,
{
    String::from_str(text)
}

/// The message that the script function `button` sends: `[b] ` and the text.
pub fn button_message(text: &str) -> (r: String)
    ensures
        r@ == "[b] "@ + text@,
{
    String::from_str("[b] ").concat(text)
}

/// The message that `ui.button` sends: `[BTN] ` and the text.
pub fn ui_button_message(text: &str) -> (r: String)
    ensures
        r@ == "[BTN] "@ + text@,
{
    String::from_str("[BTN] ").concat(text)
}

/// The message that `ui.password` sends: `[PWD] service::secret`, only when
/// it is called with exactly two arguments.
pub fn password_message(args: &Vec<String>) -> (r: Option<String>)
    ensures
        r is Some == (args@.len() == 2),
        r matches Some(m) ==> m@ == "[PWD] "@ + args@[0]@ + "::"@ + args@[1]@,
{
    if args.len() != 2 {
        return None;
    }
    let m = String::from_str("[PWD] ").concat(args[0].as_str()).concat("::").concat(
        args[1].as_str(),
    );
    Some(m)
}

/// The message sent when the script file cannot be read.
pub fn load_failure_message(name: &str, error: &str) -> (r: String)
    ensures
        r@ == "Erreur chargement "@ + name@ + ": "@ + error@,
{
    String::from_str("Erreur chargement ").concat(name).concat(": ").concat(error)
}

/// The message sent when the script's run could not be carried out.
pub fn execution_failure_message(error: &str) -> (r: String)
    ensures
        r@ == "Execution failed: "@ + error@,
{
    String::from_str("Execution failed: ").concat(error)
}

} // verus!
