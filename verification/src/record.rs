//! Records produced by successful jobs, the generated identities they are
//! made from, and the shape of the append-only result sink.

use vstd::prelude::*;
use rand::Rng;
use crate::text::count_char;
use crate::text::format_record;
use crate::text::lemma_lines_unfold;
use crate::text::lemma_one_colon_splits;
use crate::text::lemma_split_unique;
use crate::text::lines_of;
use crate::text::splits_at_colon;

verus! {

/// The mathematical value of a [`Record`].
pub ghost struct RecordView {
    pub identifier: Seq<char>,
    pub secret: Seq<char>,
}

/// A credential pair produced by one successful job. Append-only: once
/// written to the sink it is never modified or deleted.
pub struct Record {
    pub identifier: String,
    pub secret: String,
}

impl View for Record {
    type V = RecordView;

    open spec fn view(&self) -> RecordView {
        RecordView { identifier: self.identifier@, secret: self.secret@ }
    }
}

impl DeepView for Record {
    type V = RecordView;

    open spec fn deep_view(&self) -> RecordView {
        self@
    }
}

/// Neither half of a record may hold the field delimiter or a line
/// break: only then does the sink give each record one complete
/// `identifier:secret` line.
pub open spec fn record_wf(r: RecordView) -> bool {
    &&& !r.identifier.contains(':')
    &&& !r.secret.contains(':')
    &&& !r.identifier.contains('\n')
    &&& !r.secret.contains('\n')
}

/// The one line the sink holds for `r`.
pub open spec fn record_line(r: RecordView) -> Seq<char> {
    r.identifier + seq![':'] + r.secret
}

/// The whole sink after the records `rs` were appended in that order:
/// one newline-terminated line per record.
pub open spec fn sink_content(rs: Seq<RecordView>) -> Seq<char>
    decreases rs.len(),
{
    if rs.len() == 0 {
        Seq::empty()
    } else {
        record_line(rs[0]) + seq!['\n'] + sink_content(rs.drop_first())
    }
}

/// The line of a well-formed record holds no line break.
proof fn lemma_record_line_no_newline(r: RecordView)
    requires
        record_wf(r),
    ensures
        !record_line(r).contains('\n'),
{
    let line = record_line(r);
    assert forall|j: int| 0 <= j < line.len() implies line[j] != '\n' by {
        if j < r.identifier.len() {
            assert(line[j] == r.identifier[j]);
            if r.identifier[j] == '\n' {
                assert(r.identifier.contains('\n'));
            }
        } else if j == r.identifier.len() {
            assert(line[j] == ':');
        } else {
            assert(line[j] == r.secret[j - r.identifier.len() - 1]);
            if r.secret[j - r.identifier.len() - 1] == '\n' {
                assert(r.secret.contains('\n'));
            }
        }
    }
    if line.contains('\n') {
        let j = choose|j: int| 0 <= j < line.len() && line[j] == '\n';
        assert(line[j] != '\n');
    }
}

/// Appending one more record extends the sink by exactly that record's
/// line: the shape [`append_record`] gives the in-memory image.
pub proof fn lemma_sink_snoc(rs: Seq<RecordView>, r: RecordView)
    ensures
        sink_content(rs.push(r)) == sink_content(rs) + record_line(r) + seq!['\n'],
    decreases rs.len(),
{
    if rs.len() == 0 {
        assert(rs.push(r)[0] == r);
        assert(rs.push(r).drop_first() =~= Seq::<RecordView>::empty());
        assert(sink_content(rs.push(r).drop_first()) == Seq::<char>::empty());
        assert(sink_content(rs.push(r)) == record_line(r) + seq!['\n'] + Seq::<char>::empty());
        assert(record_line(r) + seq!['\n'] + Seq::<char>::empty() =~= sink_content(rs)
            + record_line(r) + seq!['\n']);
    } else {
        assert(rs.push(r).drop_first() =~= rs.drop_first().push(r));
        lemma_sink_snoc(rs.drop_first(), r);
        assert(rs.push(r)[0] == rs[0]);
        assert(sink_content(rs.push(r)) == record_line(rs[0]) + seq!['\n'] + sink_content(
            rs.drop_first().push(r),
        ));
        assert(record_line(rs[0]) + seq!['\n'] + (sink_content(rs.drop_first()) + record_line(r)
            + seq!['\n']) =~= sink_content(rs) + record_line(r) + seq!['\n']);
    }
}

/// Law: after appending any number of well-formed records, the sink
/// holds exactly one complete line per record, in append order — no
/// record is split, merged, or lost.
pub proof fn lemma_sink_lines(rs: Seq<RecordView>)
    requires
        forall|i: int| 0 <= i < rs.len() ==> record_wf(#[trigger] rs[i]),
    ensures
        lines_of(sink_content(rs)).len() == rs.len(),
        forall|i: int| 0 <= i < rs.len() ==> lines_of(sink_content(rs))[i] == record_line(rs[i]),
    decreases rs.len(),
{
    if rs.len() > 0 {
        let rest = rs.drop_first();
        lemma_record_line_no_newline(rs[0]);
        lemma_lines_unfold(record_line(rs[0]), sink_content(rest));
        lemma_sink_lines(rest);
    }
}

/// Law: a well-formed record is recovered exactly from its sink line.
/// The line holds a single delimiter, splits into the original halves,
/// and splits no other way; so parsing it back yields the record.
pub proof fn lemma_record_round_trip(r: RecordView)
    requires
        record_wf(r),
    ensures
        count_char(record_line(r), ':') == 1,
        splits_at_colon(record_line(r), r.identifier, r.secret),
        forall|h: Seq<char>, p: Seq<char>|
            splits_at_colon(record_line(r), h, p) ==> h == r.identifier && p == r.secret,
{
    lemma_one_colon_splits(record_line(r), r.identifier, r.secret);
    assert forall|h: Seq<char>, p: Seq<char>|
        splits_at_colon(record_line(r), h, p) implies h == r.identifier && p == r.secret by {
        lemma_split_unique(record_line(r), h, p, r.identifier, r.secret);
    }
}

/// Appends the one line for `r` to an in-memory image of the sink, as
/// the serialized writer does: `identifier:secret`, then a line break.
pub fn append_record(log: &mut String, r: &Record)
    ensures
        final(log)@ == old(log)@ + record_line(r@) + seq!['\n'],
{
    let line = format_record(r.identifier.as_str(), r.secret.as_str());
    log.append(line.as_str());
    log.append("\n");
    proof {
        reveal_strlit("\n");
        assert("\n"@ =~= seq!['\n']);
        assert(log@ =~= old(log)@ + record_line(r@) + seq!['\n']);
    }
}

/// An ASCII letter or digit.
pub open spec fn is_alphanumeric_char(c: char) -> bool {
    ||| 'a' as u32 <= c as u32 <= 'z' as u32
    ||| 'A' as u32 <= c as u32 <= 'Z' as u32
    ||| '0' as u32 <= c as u32 <= '9' as u32
}

/// Relies on rand's `Alphanumeric` distribution, sampled through
/// `thread_rng` and `sample_iter`: every sampled character is an ASCII
/// letter or digit. Which characters come back is left entirely open.
#[verifier::external_body]
fn sample_alphanumeric(len: usize) -> (r: String)
    ensures
        r@.len() == len as nat,
        forall|i: int| 0 <= i < r@.len() ==> is_alphanumeric_char(#[trigger] r@[i]),
{
    rand::thread_rng().sample_iter(&rand::distributions::Alphanumeric).take(len).map(
        char::from,
    ).collect()
}

/// Draws a fresh random string of ten ASCII letters and digits, the
/// length used for generated mailbox names and secrets.
pub fn random_string() -> (r: String)
    ensures
        r@.len() == 10,
        forall|i: int| 0 <= i < r@.len() ==> is_alphanumeric_char(#[trigger] r@[i]),
{
    sample_alphanumeric(10)
}

/// Builds a fresh identity: a random mailbox at the fixed mail domain,
/// and a random secret. Whatever the random draws were, the pair is
/// well-formed for the sink.
pub fn make_identity() -> (r: Record)
    ensures
        record_wf(r@),
        r@.identifier.len() == 10 + "@livinitlarge.net"@.len(),
        r@.secret.len() == 10,
{
    let user = random_string();
    let identifier = user.concat("@livinitlarge.net");
    let secret = random_string();
    proof {
        reveal_strlit("@livinitlarge.net");
        lemma_identity_halves(user@, "@livinitlarge.net"@, identifier@);
        if secret@.contains(':') {
            let j = choose|j: int| 0 <= j < secret@.len() && secret@[j] == ':';
            assert(is_alphanumeric_char(secret@[j]));
        }
        if secret@.contains('\n') {
            let j = choose|j: int| 0 <= j < secret@.len() && secret@[j] == '\n';
            assert(is_alphanumeric_char(secret@[j]));
        }
    }
    Record { identifier, secret }
}

/// A mailbox name of letters and digits followed by the fixed domain
/// holds neither the record delimiter nor a line break.
proof fn lemma_identity_halves(user: Seq<char>, domain: Seq<char>, joined: Seq<char>)
    requires
        forall|i: int| 0 <= i < user.len() ==> is_alphanumeric_char(#[trigger] user[i]),
        domain == "@livinitlarge.net"@,
        joined == user + domain,
        "@livinitlarge.net"@.len() == 17,
        forall|i: int| 0 <= i < 17 ==> #[trigger] "@livinitlarge.net"@[i] != ':' && "@livinitlarge.net"@[i] != '\n',
    ensures
        !joined.contains(':'),
        !joined.contains('\n'),
{
    assert forall|j: int| 0 <= j < joined.len() implies joined[j] != ':' && joined[j]
        != '\n' by {
        if j < user.len() {
            assert(is_alphanumeric_char(joined[j]));
        } else {
            assert(joined[j] == domain[j - user.len()]);
        }
    }
    if joined.contains(':') {
        let j = choose|j: int| 0 <= j < joined.len() && joined[j] == ':';
        assert(joined[j] != ':');
    }
    if joined.contains('\n') {
        let j = choose|j: int| 0 <= j < joined.len() && joined[j] == '\n';
        assert(joined[j] != '\n');
    }
}

} // verus!
