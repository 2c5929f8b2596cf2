//! Submissions and scoreboards as the contest server reports them.
use vstd::prelude::*;
use crate::paths::{parse_i32, parse_i32_str};
use crate::secret::string_from_utf8;
use vstd::utf8::{decode_utf8, encode_scalar, encode_utf8};

verus! {

/// Decimal digits of a natural number, most significant first.
pub open spec fn decimal_chars(x: nat) -> Seq<char>
    decreases x,
{
    if x < 10 {
        seq![digit_char(x)]
    } else {
        decimal_chars(x / 10).push(digit_char(x % 10))
    }
}

/// The character of a decimal digit.
pub open spec fn digit_char(d: nat) -> char {
    if d == 0 {
        '0'
    } else if d == 1 {
        '1'
    } else if d == 2 {
        '2'
    } else if d == 3 {
        '3'
    } else if d == 4 {
        '4'
    } else if d == 5 {
        '5'
    } else if d == 6 {
        '6'
    } else if d == 7 {
        '7'
    } else if d == 8 {
        '8'
    } else {
        '9'
    }
}

/// The ASCII bytes of the decimal digits of a natural number.
pub open spec fn decimal_bytes(x: nat) -> Seq<u8>
    decreases x,
{
    if x < 10 {
        seq![(48 + x) as u8]
    } else {
        decimal_bytes(x / 10).push((48 + x % 10) as u8)
    }
}

/// Encoding one more character appends its encoding.
proof fn lemma_encode_push(s: Seq<char>, c: char)
    ensures
        encode_utf8(s.push(c)) == encode_utf8(s) + encode_scalar(c as u32),
    decreases s.len(),
{
    if s.len() == 0 {
        assert(s.push(c).drop_first() =~= s);
        assert(encode_utf8(s) =~= Seq::<u8>::empty());
        assert(encode_utf8(s.push(c).drop_first()) =~= Seq::<u8>::empty());
        assert(encode_utf8(s.push(c)) =~= encode_scalar(c as u32) + Seq::<u8>::empty());
        assert(encode_utf8(s) + encode_scalar(c as u32) =~= encode_scalar(c as u32));
    } else {
        assert(s.push(c).drop_first() =~= s.drop_first().push(c));
        lemma_encode_push(s.drop_first(), c);
        let a = encode_scalar(s[0] as u32);
        let b = encode_utf8(s.drop_first());
        let d = encode_scalar(c as u32);
        assert(a + (b + d) =~= (a + b) + d);
    }
}

/// A decimal digit is encoded as its ASCII byte.
proof fn lemma_digit_encoding(d: nat)
    requires
        d < 10,
    ensures
        encode_scalar(digit_char(d) as u32) == seq![(48 + d) as u8],
{
    let v = digit_char(d) as u32;
    assert(v == 48 + d);
    assert(v <= 0x7F);
    assert((v & 0x7F) as u8 == v as u8) by (bit_vector)
        requires
            v <= 0x7F,
    ;
}

/// The encoding of the decimal digits of `x` is their ASCII bytes.
proof fn lemma_decimal_encoding(x: nat)
    ensures
        encode_utf8(decimal_chars(x)) == decimal_bytes(x),
    decreases x,
{
    if x < 10 {
        let e = Seq::<char>::empty();
        lemma_encode_push(e, digit_char(x));
        assert(e.push(digit_char(x)) =~= seq![digit_char(x)]);
        assert(encode_utf8(e) =~= Seq::<u8>::empty());
        lemma_digit_encoding(x);
        assert(Seq::<u8>::empty() + seq![(48 + x) as u8] =~= seq![(48 + x) as u8]);
    } else {
        lemma_decimal_encoding(x / 10);
        lemma_encode_push(decimal_chars(x / 10), digit_char(x % 10));
        lemma_digit_encoding(x % 10);
        assert(decimal_bytes(x / 10) + seq![(48 + x % 10) as u8] =~= decimal_bytes(x / 10).push(
            (48 + x % 10) as u8,
        ));
    }
}

/// The ASCII bytes of the decimal digits of `x`.
fn decimal_digits(x: u64) -> (v: Vec<u8>)
    ensures
        v@ == decimal_bytes(x as nat),
    decreases x,
{
    if x < 10 {
        let d: u8 = 48 + (x as u8);
        vec![d]
    } else {
        let mut v = decimal_digits(x / 10);
        let d: u8 = 48 + ((x % 10) as u8);
        v.push(d);
        v
    }
}

/// `x` written in decimal, without sign or leading zeros.
fn u64_to_decimal(x: u64) -> (s: String)
    ensures
        s@ == decimal_chars(x as nat),
{
    let bytes = decimal_digits(x);
    proof {
        lemma_decimal_encoding(x as nat);
        vstd::utf8::encode_utf8_valid_utf8(decimal_chars(x as nat));
    }
    match string_from_utf8(bytes) {
        Some(s) => {
            proof {
                vstd::utf8::encode_utf8_decode_utf8(s@);
                vstd::utf8::encode_utf8_decode_utf8(decimal_chars(x as nat));
            }
            s
        },
        None => {
            proof {
                assert(false);
            }
            String::new()
        },
    }
}

/// State of a submission: still being judged, rejected with a message, or
/// scored.
#[derive(Debug, Clone, PartialEq, Eq)]
pub enum SubmissionStatus {
    Processing,
    Failure(String),
    Success(u64),
}

/// What the status reads as when shown to a person.
pub open spec fn status_text(s: SubmissionStatus) -> Seq<char> {
    match s {
        SubmissionStatus::Processing => "Pending"@,
        SubmissionStatus::Success(score) => decimal_chars(score as nat),
        SubmissionStatus::Failure(e) => e@,
    }
}

impl SubmissionStatus {
    /// The status as text: "Pending", the score in decimal, or the failure
    /// message.
    pub fn display_string(&self) -> (s: String)
        ensures
            s@ == status_text(*self),
    {
        match self {
            SubmissionStatus::Processing => String::from_str("Pending"),
            SubmissionStatus::Success(score) => u64_to_decimal(*score),
            SubmissionStatus::Failure(e) => e.clone(),
        }
    }
}

/// One submission of a solution.
#[derive(Debug, Clone, PartialEq, Eq)]
pub struct Submission {
    pub _id: String,
    pub problem_id: u32,
    pub submitted_at: String,
    pub score: SubmissionStatus,
    /// Not part of the documented format.
    pub user_id: Option<String>,
}

/// A submission together with the submitted solution.
#[derive(Debug, Clone, PartialEq, Eq)]
pub struct SubmissionResponse {
    pub submission: Submission,
    pub contents: String,
}

/// One line of the scoreboard.
#[derive(Debug, Clone, PartialEq, Eq)]
pub struct ScoreboardEntry {
    username: String,
    score: u64,
}

impl ScoreboardEntry {
    pub closed spec fn spec_username(&self) -> Seq<char> {
        self.username@
    }

    pub closed spec fn spec_score(&self) -> u64 {
        self.score
    }

    pub fn new(username: String, score: u64) -> (e: Self)
        ensures
            e.spec_username() == username@,
            e.spec_score() == score,
    {
        ScoreboardEntry { username, score }
    }

    pub fn username(&self) -> (u: &String)
        ensures
            u@ == self.spec_username(),
    {
        &self.username
    }

    pub fn score(&self) -> (s: u64)
        ensures
            s == self.spec_score(),
    {
        self.score
    }
}

/// The global scoreboard.
#[derive(Debug, Clone, PartialEq, Eq)]
pub struct Scoreboard {
    frozen: bool,
    scoreboard: Vec<ScoreboardEntry>,
    updated_at: String,
}

impl Scoreboard {
    pub closed spec fn spec_frozen(&self) -> bool {
        self.frozen
    }

    pub closed spec fn spec_entries(&self) -> Seq<ScoreboardEntry> {
        self.scoreboard@
    }

    pub closed spec fn spec_updated_at(&self) -> Seq<char> {
        self.updated_at@
    }

    pub fn new(frozen: bool, scoreboard: Vec<ScoreboardEntry>, updated_at: String) -> (b: Self)
        ensures
            b.spec_frozen() == frozen,
            b.spec_entries() == scoreboard@,
            b.spec_updated_at() == updated_at@,
    {
        Scoreboard { frozen, scoreboard, updated_at }
    }

    pub fn frozen(&self) -> (f: bool)
        ensures
            f == self.spec_frozen(),
    {
        self.frozen
    }

    pub fn entries(&self) -> (e: &Vec<ScoreboardEntry>)
        ensures
            e@ == self.spec_entries(),
    {
        &self.scoreboard
    }

    pub fn updated_at(&self) -> (u: &String)
        ensures
            u@ == self.spec_updated_at(),
    {
        &self.updated_at
    }
}


/// Why the chunks of a problem stored in the database do not make up its
/// text.
#[derive(Debug, Clone, Copy, PartialEq, Eq, Structural)]
pub enum ChunkError {
    /// No chunk is stored for the problem.
    NotFound { problem_id: u32 },
    /// The chunk at some position does not carry that position as its index.
    IndexMismatch,
}

/// Each chunk carries its own position as its index.
pub open spec fn chunks_in_order(chunks: Seq<(usize, String)>) -> bool {
    forall|i: int| 0 <= i < chunks.len() ==> #[trigger] chunks[i].0 == i
}

/// The texts of the chunks, one after the other.
pub open spec fn concat_chunks(chunks: Seq<(usize, String)>) -> Seq<char>
    decreases chunks.len(),
{
    if chunks.len() == 0 {
        Seq::empty()
    } else {
        concat_chunks(chunks.drop_last()) + chunks.last().1@
    }
}

/// The text of a problem from its stored chunks, given as (index, text) in
/// the order of their indices: an error when there is none or when the
/// chunk at position `i` does not have index `i`.
pub fn join_problem_chunks(problem_id: u32, chunks: &Vec<(usize, String)>) -> (r: Result<
    String,
    ChunkError,
>)
    ensures
        chunks@.len() == 0 ==> r == Err::<String, ChunkError>(ChunkError::NotFound { problem_id }),
        chunks@.len() > 0 && !chunks_in_order(chunks@) ==> r == Err::<String, ChunkError>(
            ChunkError::IndexMismatch,
        ),
        chunks@.len() > 0 && chunks_in_order(chunks@) ==> match r {
            Ok(s) => s@ == concat_chunks(chunks@),
            Err(_) => false,
        },
{
    if chunks.len() == 0 {
        return Err(ChunkError::NotFound { problem_id });
    }
    let mut text = String::new();
    let mut i: usize = 0;
    while i < chunks.len()
        invariant
            i <= chunks@.len(),
            chunks_in_order(chunks@.take(i as int)),
            text@ == concat_chunks(chunks@.take(i as int)),
        decreases chunks@.len() - i,
    {
        if chunks[i].0 != i {
            return Err(ChunkError::IndexMismatch);
        }
        proof {
            assert(chunks@.take(i + 1).drop_last() =~= chunks@.take(i as int));
        }
        text.append(chunks[i].1.as_str());
        i = i + 1;
    }
    proof {
        assert(chunks@.take(chunks@.len() as int) =~= chunks@);
    }
    Ok(text)
}

/// The status that a stored submission has: its score if it has one, else
/// its error if it has one, else still being judged.
pub open spec fn stored_status(score: Option<u64>, error: Option<String>) -> SubmissionStatus {
    match (score, error) {
        (Some(s), _) => SubmissionStatus::Success(s),
        (_, Some(e)) => SubmissionStatus::Failure(e),
        _ => SubmissionStatus::Processing,
    }
}

/// A submission as the database stores it: the official identifier if the
/// contest server gave one, else the local number in decimal; the status
/// from the score and error columns; no contents read as empty.
pub fn submission_from_db(
    submission_id: u32,
    official_id: Option<String>,
    problem_id: u32,
    score: Option<u64>,
    error: Option<String>,
    contents: Option<String>,
    created: String,
) -> (r: SubmissionResponse)
    ensures
        r.submission._id@ == match official_id {
            Some(o) => o@,
            None => decimal_chars(submission_id as nat),
        },
        r.submission.problem_id == problem_id,
        r.submission.submitted_at@ == created@,
        r.submission.score == stored_status(score, error),
        score matches Some(s) ==> r.submission.score == SubmissionStatus::Success(s),
        score is None && error is Some ==> r.submission.score == SubmissionStatus::Failure(
            error.unwrap(),
        ),
        score is None && error is None ==> r.submission.score == SubmissionStatus::Processing,
        r.submission.user_id is None,
        r.contents@ == match contents {
            Some(c) => c@,
            None => Seq::<char>::empty(),
        },
{
    let id = match official_id {
        Some(o) => o,
        None => u64_to_decimal(submission_id as u64),
    };
    let status = match (score, error) {
        (Some(s), _) => SubmissionStatus::Success(s),
        (_, Some(e)) => SubmissionStatus::Failure(e),
        _ => SubmissionStatus::Processing,
    };
    let contents = match contents {
        Some(c) => c,
        None => String::new(),
    };
    SubmissionResponse {
        submission: Submission {
            _id: id,
            problem_id,
            submitted_at: created,
            score: status,
            user_id: None,
        },
        contents,
    }
}

/// The local number that a submission identifier names: the identifier
/// read as an `i32`, or 0 when it is not one.
pub fn local_submission_id(submission_id: &str) -> (r: i32)
    ensures
        r == match parse_i32(submission_id@) {
            Some(v) => v,
            None => 0,
        },
{
    match parse_i32_str(submission_id) {
        Some(v) => v,
        None => 0,
    }
}

/// The text without the `"` characters at its start.
pub open spec fn trim_start_quotes(s: Seq<char>) -> Seq<char>
    decreases s.len(),
{
    if s.len() > 0 && s[0] == '"' {
        trim_start_quotes(s.drop_first())
    } else {
        s
    }
}

/// The text without the `"` characters at its end.
pub open spec fn trim_end_quotes(s: Seq<char>) -> Seq<char>
    decreases s.len(),
{
    if s.len() > 0 && s.last() == '"' {
        trim_end_quotes(s.drop_last())
    } else {
        s
    }
}

/// A text with every `"` at either end removed.
pub open spec fn trim_quotes(s: Seq<char>) -> Seq<char> {
    trim_end_quotes(trim_start_quotes(s))
}

proof fn lemma_trim_start(s: Seq<char>, a: int)
    requires
        0 <= a <= s.len(),
        forall|j: int| 0 <= j < a ==> s[j] == '"',
        a == s.len() || s[a] != '"',
    ensures
        trim_start_quotes(s) == s.subrange(a, s.len() as int),
    decreases a,
{
    if a == 0 {
        assert(s.subrange(0, s.len() as int) =~= s);
    } else {
        let t = s.drop_first();
        lemma_trim_start(t, a - 1);
        assert(t.subrange(a - 1, t.len() as int) =~= s.subrange(a, s.len() as int));
    }
}

proof fn lemma_trim_end(s: Seq<char>, b: int)
    requires
        0 <= b <= s.len(),
        forall|j: int| b <= j < s.len() ==> s[j] == '"',
        b == 0 || s[b - 1] != '"',
    ensures
        trim_end_quotes(s) == s.subrange(0, b),
    decreases s.len() - b,
{
    if b == s.len() {
        assert(s.subrange(0, b) =~= s);
    } else {
        let t = s.drop_last();
        lemma_trim_end(t, b);
        assert(t.subrange(0, b) =~= s.subrange(0, b));
    }
}

/// The identifier in the contest server's reply to a submission: the reply
/// text with the quotes around it removed.
pub fn submission_id_from_reply(reply: &str) -> (r: String)
    ensures
        r@ == trim_quotes(reply@),
{
    let n = reply.unicode_len();
    let mut a: usize = 0;
    while a < n && reply.get_char(a) == '"'
        invariant
            n == reply@.len(),
            a <= n,
            forall|j: int| 0 <= j < a ==> reply@[j] == '"',
        decreases n - a,
    {
        a = a + 1;
    }
    let mut b: usize = n;
    while b > a && reply.get_char(b - 1) == '"'
        invariant
            n == reply@.len(),
            a <= b <= n,
            forall|j: int| b <= j < n ==> reply@[j] == '"',
        decreases b,
    {
        b = b - 1;
    }
    let inner = reply.substring_char(a, b);
    proof {
        lemma_trim_start(reply@, a as int);
        let t = reply@.subrange(a as int, n as int);
        assert(b - a == 0 || t[b - a - 1] != '"');
        lemma_trim_end(t, b - a);
        assert(t.subrange(0, b - a) =~= reply@.subrange(a as int, b as int));
    }
    String::from_str(inner)
}

} // verus!
