//! Statements and statement groups: the script is filtered, scanned,
//! trimmed, and checked for transaction-control commands.
use vstd::prelude::*;
use crate::comments::{
    drop_cr, filter_state, has_comment_line, is_comment_line, is_line_at,
    lemma_comment_line_dropped, lemma_filter_keeps_plain_text, strip_comments, without_comments,
};
use crate::scanner::{
    ends_fragment, lemma_drop_plain_first, lemma_fragments_hold_no_unquoted_semicolon,
    lemma_prefix_holds_no_unquoted_semicolon, lemma_quoted_semicolons_kept, lemma_semicolons_concat,
    lemma_single_fragment, scan, scan_fragments, scan_mode, semicolons, total_semicolons,
    unquoted_semicolons, ScanMode,
};
use crate::text::{chars_of, is_white_space, string_of, trim, trim_chars, trim_end, trim_start};

verus! {

/// An individual raw SQL statement.
#[derive(Debug, Default, PartialEq)]
pub struct Statement(pub String);

impl View for Statement {
    type V = Seq<char>;

    open spec fn view(&self) -> Seq<char> {
        self.0@
    }
}

/// The trimmed, non-empty fragments, in order.
pub open spec fn statements_of(frags: Seq<Seq<char>>) -> Seq<Seq<char>>
    decreases frags.len(),
{
    if frags.len() == 0 {
        Seq::empty()
    } else {
        let rest = statements_of(frags.drop_last());
        let t = trim(frags.last());
        if t.len() == 0 {
            rest
        } else {
            rest.push(t)
        }
    }
}

/// The statements of a script before the policy check: comment lines
/// dropped, split at unquoted semicolons, trimmed, empty ones left out.
pub open spec fn candidate_statements(input: Seq<char>) -> Seq<Seq<char>> {
    statements_of(scan_fragments(strip_comments(input)))
}

/// The trimmed, non-empty fragments, in order.
pub fn statements_from(frags: &Vec<Vec<char>>) -> (r: Vec<Vec<char>>)
    ensures
        r@.map_values(|f: Vec<char>| f@) == statements_of(frags@.map_values(|f: Vec<char>| f@)),
{
    let ghost fs = frags@.map_values(|f: Vec<char>| f@);
    let mut r: Vec<Vec<char>> = Vec::new();
    let mut i: usize = 0;
    while i < frags.len()
        invariant
            i <= frags.len(),
            fs == frags@.map_values(|f: Vec<char>| f@),
            r@.map_values(|f: Vec<char>| f@) == statements_of(fs.take(i as int)),
        decreases frags.len() - i,
    {
        let t = trim_chars(&frags[i]);
        let ghost before = r@;
        if t.len() > 0 {
            r.push(t);
            assert(r@.map_values(|f: Vec<char>| f@) =~= before.map_values(|f: Vec<char>| f@).push(t@));
        }
        i = i + 1;
        assert(fs.take(i as int).drop_last() =~= fs.take(i - 1));
    }
    assert(fs.take(frags.len() as int) =~= fs);
    r
}

/// How many leading characters of a statement the policy check inspects.
pub const INSPECTED_CHARS: usize = 10;

/// A transaction-control command, which a script may not hold.
#[derive(Clone, Copy, Debug, PartialEq, Eq, Structural)]
pub enum ReservedCommand {
    Begin,
    Savepoint,
    Rollback,
    Commit,
}

impl ReservedCommand {
    /// The keyword in lower case.
    pub open spec fn keyword(self) -> Seq<char> {
        match self {
            ReservedCommand::Begin => seq!['b', 'e', 'g', 'i', 'n'],
            ReservedCommand::Savepoint => seq!['s', 'a', 'v', 'e', 'p', 'o', 'i', 'n', 't'],
            ReservedCommand::Rollback => seq!['r', 'o', 'l', 'l', 'b', 'a', 'c', 'k'],
            ReservedCommand::Commit => seq!['c', 'o', 'm', 'm', 'i', 't'],
        }
    }

    /// The keyword in upper case, as error messages name it.
    pub open spec fn spec_name(self) -> Seq<char> {
        match self {
            ReservedCommand::Begin => "BEGIN"@,
            ReservedCommand::Savepoint => "SAVEPOINT"@,
            ReservedCommand::Rollback => "ROLLBACK"@,
            ReservedCommand::Commit => "COMMIT"@,
        }
    }

    /// The keyword in upper case.
    pub fn name(&self) -> (r: &'static str)
        ensures
            r@ == self.spec_name(),
    {
        match self {
            ReservedCommand::Begin => "BEGIN",
            ReservedCommand::Savepoint => "SAVEPOINT",
            ReservedCommand::Rollback => "ROLLBACK",
            ReservedCommand::Commit => "COMMIT",
        }
    }

    /// The keyword in lower case.
    pub fn keyword_chars(&self) -> (r: Vec<char>)
        ensures
            r@ == self.keyword(),
    {
        let r = match self {
            ReservedCommand::Begin => vec!['b', 'e', 'g', 'i', 'n'],
            ReservedCommand::Savepoint => vec!['s', 'a', 'v', 'e', 'p', 'o', 'i', 'n', 't'],
            ReservedCommand::Rollback => vec!['r', 'o', 'l', 'l', 'b', 'a', 'c', 'k'],
            ReservedCommand::Commit => vec!['c', 'o', 'm', 'm', 'i', 't'],
        };
        assert(r@ =~= self.keyword());
        r
    }
}

/// Whether `s` begins with `p`.
pub open spec fn has_prefix(s: Seq<char>, p: Seq<char>) -> bool {
    p.len() <= s.len() && s.take(p.len() as int) == p
}

/// The command whose keyword begins the lower-cased text, trying them in the
/// order begin, savepoint, rollback, commit.
pub open spec fn reserved_prefix(lowered: Seq<char>) -> Option<ReservedCommand> {
    if has_prefix(lowered, ReservedCommand::Begin.keyword()) {
        Some(ReservedCommand::Begin)
    } else if has_prefix(lowered, ReservedCommand::Savepoint.keyword()) {
        Some(ReservedCommand::Savepoint)
    } else if has_prefix(lowered, ReservedCommand::Rollback.keyword()) {
        Some(ReservedCommand::Rollback)
    } else if has_prefix(lowered, ReservedCommand::Commit.keyword()) {
        Some(ReservedCommand::Commit)
    } else {
        None
    }
}

/// The first `n` characters of `s`, or all of them if there are fewer.
pub open spec fn first_chars(s: Seq<char>, n: int) -> Seq<char> {
    if s.len() <= n {
        s
    } else {
        s.take(n)
    }
}

/// What `str::to_lowercase` makes of a text.
pub uninterp spec fn lower_of(s: Seq<char>) -> Seq<char>;

/// Relies on `str::to_lowercase`: the Unicode lower-case mapping of the text,
/// which depends on the text alone.
#[verifier::external_body]
fn lowercase(s: &str) -> (r: String)
    ensures
        r@ == lower_of(s@),
{
    s.to_lowercase()
}

/// The command that a trimmed statement begins with: its first
/// `INSPECTED_CHARS` characters are lower-cased and matched against the
/// keywords, with no check for a word boundary.
pub open spec fn reserved_command(stmt: Seq<char>) -> Option<ReservedCommand> {
    reserved_prefix(lower_of(first_chars(stmt, INSPECTED_CHARS as int)))
}

/// Whether `s` begins with `p`.
fn starts_with(s: &Vec<char>, p: &Vec<char>) -> (r: bool)
    ensures
        r == has_prefix(s@, p@),
{
    if p.len() > s.len() {
        return false;
    }
    let mut i: usize = 0;
    while i < p.len()
        invariant
            p.len() <= s.len(),
            i <= p.len(),
            forall|k: int| 0 <= k < i ==> s@[k] == p@[k],
        decreases p.len() - i,
    {
        if s[i] != p[i] {
            assert(s@.take(p.len() as int)[i as int] != p@[i as int]);
            return false;
        }
        i = i + 1;
    }
    assert(s@.take(p.len() as int) =~= p@);
    true
}

/// The command whose keyword begins `lowered`, a text already in lower case.
pub fn reserved_keyword(lowered: &str) -> (r: Option<ReservedCommand>)
    ensures
        r == reserved_prefix(lowered@),
{
    let l = chars_of(lowered);
    if starts_with(&l, &ReservedCommand::Begin.keyword_chars()) {
        Some(ReservedCommand::Begin)
    } else if starts_with(&l, &ReservedCommand::Savepoint.keyword_chars()) {
        Some(ReservedCommand::Savepoint)
    } else if starts_with(&l, &ReservedCommand::Rollback.keyword_chars()) {
        Some(ReservedCommand::Rollback)
    } else if starts_with(&l, &ReservedCommand::Commit.keyword_chars()) {
        Some(ReservedCommand::Commit)
    } else {
        None
    }
}

/// The command that a trimmed statement begins with, if any.
pub fn statement_command(stmt: &Vec<char>) -> (r: Option<ReservedCommand>)
    ensures
        r == reserved_command(stmt@),
{
    let mut head = String::new();
    let mut i: usize = 0;
    while i < stmt.len() && i < INSPECTED_CHARS
        invariant
            i <= stmt.len(),
            i <= INSPECTED_CHARS,
            head@ == stmt@.take(i as int),
        decreases stmt.len() - i,
    {
        head.push(stmt[i]);
        i = i + 1;
        assert(stmt@.take(i as int) =~= stmt@.take(i - 1).push(stmt@[i - 1]));
    }
    assert(head@ =~= first_chars(stmt@, INSPECTED_CHARS as int));
    let lowered = lowercase(head.as_str());
    reserved_keyword(lowered.as_str())
}

/// The command of the first statement, in order, that begins with one.
pub open spec fn first_reserved(stmts: Seq<Seq<char>>) -> Option<ReservedCommand>
    decreases stmts.len(),
{
    if stmts.len() == 0 {
        None
    } else {
        match reserved_command(stmts[0]) {
            Some(k) => Some(k),
            None => first_reserved(stmts.drop_first()),
        }
    }
}

/// The message of the error for a script that holds `k`.
pub open spec fn error_message(k: ReservedCommand) -> Seq<char> {
    k.spec_name() + " command is not supported in a revision"@
}

/// What parsing a script gives: its statements, or the message that names
/// the command of the first statement that begins with one.
pub open spec fn parse_result(input: Seq<char>) -> Result<Seq<Seq<char>>, Seq<char>> {
    let stmts = candidate_statements(input);
    match first_reserved(stmts) {
        Some(k) => Err(error_message(k)),
        None => Ok(stmts),
    }
}

/// The message of the error for a script that holds `k`.
pub fn reserved_command_message(k: ReservedCommand) -> (r: String)
    ensures
        r@ == error_message(k),
{
    let mut r = String::from_str(k.name());
    r.append(" command is not supported in a revision");
    r
}

/// Splits a script into its statements: comment lines are dropped, the rest
/// is cut at each semicolon outside quotes, and each piece is trimmed, the
/// empty ones left out. A script in which a statement begins with a
/// transaction-control command is refused, with a message naming the
/// command of the first such statement.
pub fn parse(input: &str) -> (r: Result<Vec<Statement>, String>)
    ensures
        match r {
            Ok(v) => parse_result(input@) == Ok::<Seq<Seq<char>>, Seq<char>>(
                v@.map_values(|s: Statement| s@),
            ),
            Err(m) => parse_result(input@) == Err::<Seq<Seq<char>>, Seq<char>>(m@),
        },
{
    let chars = chars_of(input);
    let filtered = without_comments(&chars);
    let frags = scan(&filtered);
    let cands = statements_from(&frags);
    let ghost c = candidate_statements(input@);
    assert(cands@.map_values(|f: Vec<char>| f@) == c);
    assert(c.skip(0) =~= c);
    let mut i: usize = 0;
    while i < cands.len()
        invariant
            i <= cands.len(),
            c == candidate_statements(input@),
            cands@.map_values(|f: Vec<char>| f@) == c,
            first_reserved(c) == first_reserved(c.skip(i as int)),
        decreases cands.len() - i,
    {
        assert(c.skip(i as int)[0] == cands@[i as int]@);
        match statement_command(&cands[i]) {
            Some(k) => {
                assert(first_reserved(c.skip(i as int)) == Some(k));
                let m = reserved_command_message(k);
                return Err(m);
            },
            None => {},
        }
        assert(c.skip(i as int).drop_first() =~= c.skip(i + 1));
        i = i + 1;
    }
    assert(c.skip(i as int).len() == 0);
    let mut out: Vec<Statement> = Vec::new();
    let mut j: usize = 0;
    while j < cands.len()
        invariant
            j <= cands.len(),
            c == candidate_statements(input@),
            cands@.map_values(|f: Vec<char>| f@) == c,
            out@.map_values(|s: Statement| s@) == c.take(j as int),
        decreases cands.len() - j,
    {
        let ghost before = out@;
        out.push(Statement(string_of(&cands[j])));
        assert(out@.map_values(|s: Statement| s@) =~= before.map_values(|s: Statement| s@).push(c[j as int]));
        j = j + 1;
        assert(c.take(j as int) =~= c.take(j - 1).push(c[j - 1]));
    }
    assert(c.take(cands.len() as int) =~= c);
    Ok(out)
}

proof fn lemma_first_reserved_at(stmts: Seq<Seq<char>>, i: int)
    requires
        0 <= i <= stmts.len(),
        forall|j: int| 0 <= j < i ==> reserved_command(#[trigger] stmts[j]) is None,
    ensures
        first_reserved(stmts) == first_reserved(stmts.skip(i)),
    decreases i,
{
    if i > 0 {
        lemma_first_reserved_at(stmts.drop_first(), i - 1);
        assert(stmts.drop_first().skip(i - 1) =~= stmts.skip(i));
    } else {
        assert(stmts.skip(0) =~= stmts);
    }
}

/// The error names the first offending statement: when statement `i` is the
/// first, in source order, to begin with a transaction-control command,
/// parsing fails with that command, whatever later statements hold.
pub proof fn lemma_first_offender_reported(input: Seq<char>, i: int)
    requires
        0 <= i < candidate_statements(input).len(),
        reserved_command(candidate_statements(input)[i]) is Some,
        forall|j: int|
            0 <= j < i ==> reserved_command(#[trigger] candidate_statements(input)[j]) is None,
    ensures
        parse_result(input) == Err::<Seq<Seq<char>>, Seq<char>>(
            error_message(reserved_command(candidate_statements(input)[i])->0),
        ),
{
    let c = candidate_statements(input);
    lemma_first_reserved_at(c, i);
    assert(c.skip(i)[0] == c[i]);
}

/// A script in which no statement begins with a transaction-control command
/// gives all of its statements.
pub proof fn lemma_no_offender_accepted(input: Seq<char>)
    requires
        forall|j: int|
            0 <= j < candidate_statements(input).len() ==> reserved_command(
                #[trigger] candidate_statements(input)[j],
            ) is None,
    ensures
        parse_result(input) == Ok::<Seq<Seq<char>>, Seq<char>>(candidate_statements(input)),
{
    let c = candidate_statements(input);
    lemma_first_reserved_at(c, c.len() as int);
}

/// Whether `s` holds nothing but whitespace and semicolons.
pub open spec fn is_blank(s: Seq<char>) -> bool {
    forall|i: int| 0 <= i < s.len() ==> is_white_space(#[trigger] s[i]) || s[i] == ';'
}

proof fn lemma_filter_blank(s: Seq<char>)
    requires
        is_blank(s),
    ensures
        is_blank(filter_state(s).0),
        is_blank(filter_state(s).1),
        is_blank(strip_comments(s)),
    decreases s.len(),
{
    if s.len() > 0 {
        let p = s.drop_last();
        assert(is_blank(p)) by {
            assert forall|i: int| 0 <= i < p.len() implies is_white_space(#[trigger] p[i])
                || p[i] == ';' by {
                assert(p[i] == s[i]);
            }
        }
        lemma_filter_blank(p);
        let (out, line) = filter_state(p);
        let l = drop_cr(line);
        assert(is_blank(l + seq!['\n']));
        assert(is_blank(out + l + seq!['\n']));
        assert(is_blank(line.push(s.last())));
    }
    let (out, line) = filter_state(s);
    assert(is_blank(out + line + seq!['\n']));
}

proof fn lemma_scan_blank(s: Seq<char>)
    requires
        is_blank(s),
    ensures
        scan_mode(s) == ScanMode::Unquoted,
        forall|k: int|
            0 <= k < scan_fragments(s).len() ==> trim_end(#[trigger] scan_fragments(s)[k]).len()
                == 0,
    decreases s.len(),
{
    if s.len() > 0 {
        let p = s.drop_last();
        assert(is_blank(p)) by {
            assert forall|i: int| 0 <= i < p.len() implies is_white_space(#[trigger] p[i])
                || p[i] == ';' by {
                assert(p[i] == s[i]);
            }
        }
        lemma_scan_blank(p);
        crate::scanner::lemma_split_at_unquoted_semicolons(p);
        let f = scan_fragments(p);
        let c = s.last();
        assert(is_white_space(s[s.len() - 1]) || s[s.len() - 1] == ';');
        if !ends_fragment(ScanMode::Unquoted, c) {
            let g = f.update(f.len() - 1, f.last().push(c));
            assert forall|k: int| 0 <= k < g.len() implies trim_end(#[trigger] g[k]).len() == 0 by {
                if k == f.len() - 1 {
                    assert(f.last().push(c).drop_last() =~= f.last());
                } else {
                    assert(g[k] == f[k]);
                }
            }
        } else {
            let g = f.push(Seq::empty());
            assert forall|k: int| 0 <= k < g.len() implies trim_end(#[trigger] g[k]).len() == 0 by {
                if k < f.len() {
                    assert(g[k] == f[k]);
                }
            }
        }
    }
}

proof fn lemma_statements_of_blank(frags: Seq<Seq<char>>)
    requires
        forall|k: int| 0 <= k < frags.len() ==> trim_end(#[trigger] frags[k]).len() == 0,
    ensures
        statements_of(frags) == Seq::<Seq<char>>::empty(),
    decreases frags.len(),
{
    if frags.len() > 0 {
        let p = frags.drop_last();
        assert forall|k: int| 0 <= k < p.len() implies trim_end(#[trigger] p[k]).len() == 0 by {
            assert(p[k] == frags[k]);
        }
        lemma_statements_of_blank(p);
        assert(trim_end(frags[frags.len() - 1]).len() == 0);
        assert(trim_end(frags.last()) =~= Seq::<char>::empty());
    }
}

/// A script of nothing but whitespace and semicolons holds no statement, and
/// is no error.
pub proof fn lemma_blank_script_is_empty(input: Seq<char>)
    requires
        is_blank(input),
    ensures
        parse_result(input) == Ok::<Seq<Seq<char>>, Seq<char>>(Seq::empty()),
{
    lemma_filter_blank(input);
    lemma_scan_blank(strip_comments(input));
    lemma_statements_of_blank(scan_fragments(strip_comments(input)));
}

/// A statement with no semicolon outside quotes, which holds no comment
/// line and no carriage return and is neither blank nor a
/// transaction-control command, comes back as one statement: itself,
/// trimmed, whatever quotes and lines it holds.
pub proof fn lemma_single_statement(s: Seq<char>)
    requires
        forall|i: int| 0 <= i < s.len() ==> s[i] != '\r',
        !has_comment_line(s),
        unquoted_semicolons(s) == 0,
        trim(s).len() > 0,
        reserved_command(trim(s)) is None,
    ensures
        parse_result(s) == Ok::<Seq<Seq<char>>, Seq<char>>(seq![trim(s)]),
{
    assert forall|i: int, j: int|
        is_line_at(s, i, j) && j < s.len() implies !is_comment_line(#[trigger] s.subrange(i, j)) by {
        if is_comment_line(s.subrange(i, j)) {
            assert(has_comment_line(s));
        }
    }
    lemma_filter_keeps_plain_text(s);
    let (out, line) = filter_state(s);
    let st = s.len() - line.len();
    assert(line =~= s.subrange(st, s.len() as int));
    let t = strip_comments(s);
    if line.len() == 0 {
        assert(out =~= s);
        assert(t == s);
    } else {
        if is_comment_line(s.subrange(st, s.len() as int)) {
            assert(has_comment_line(s));
        }
        assert(t =~= s.push('\n'));
        assert(t.drop_last() =~= s);
        assert(unquoted_semicolons(t) == 0);
        assert(trim_end(t) == trim_end(s));
    }
    lemma_single_fragment(t);
    assert(trim(t) == trim(s));
    let r = seq![trim(s)];
    let ft = seq![t];
    assert(ft.drop_last() =~= Seq::<Seq<char>>::empty());
    assert(ft.last() == t);
    assert(statements_of(ft.drop_last()) == Seq::<Seq<char>>::empty());
    assert(statements_of(ft) =~= r);
    assert(r.drop_first() =~= Seq::<Seq<char>>::empty());
    assert(first_reserved(r.drop_first()) == None::<ReservedCommand>);
    assert(r[0] == trim(s));
    assert(first_reserved(r) == None::<ReservedCommand>);
}

/// Comment lines take no part: removing one, with its line ending, from the
/// start of a line of a script changes nothing of what parsing gives.
pub proof fn lemma_comment_lines_ignored(a: Seq<char>, l: Seq<char>, b: Seq<char>)
    requires
        a.len() == 0 || a.last() == '\n',
        forall|i: int| 0 <= i < l.len() ==> l[i] != '\n',
        is_comment_line(l),
    ensures
        parse_result(a + l + seq!['\n'] + b) == parse_result(a + b),
{
    lemma_comment_line_dropped(a, l, b);
}

proof fn lemma_trim_end_is_prefix(s: Seq<char>)
    ensures
        trim_end(s).len() <= s.len(),
        trim_end(s) == s.take(trim_end(s).len() as int),
    decreases s.len(),
{
    if s.len() > 0 && is_white_space(s.last()) {
        lemma_trim_end_is_prefix(s.drop_last());
        assert(s.drop_last().take(trim_end(s).len() as int) =~= s.take(trim_end(s).len() as int));
    } else {
        assert(s.take(s.len() as int) =~= s);
    }
}

proof fn lemma_trim_start_keeps_semicolons(s: Seq<char>)
    ensures
        unquoted_semicolons(trim_start(s)) == unquoted_semicolons(s),
    decreases s.len(),
{
    if s.len() > 0 && is_white_space(s[0]) {
        lemma_drop_plain_first(s);
        lemma_trim_start_keeps_semicolons(s.drop_first());
    }
}

proof fn lemma_statements_of_no_unquoted_semicolon(frags: Seq<Seq<char>>)
    requires
        forall|k: int| 0 <= k < frags.len() ==> unquoted_semicolons(#[trigger] frags[k]) == 0,
    ensures
        forall|k: int|
            0 <= k < statements_of(frags).len() ==> unquoted_semicolons(
                #[trigger] statements_of(frags)[k],
            ) == 0,
    decreases frags.len(),
{
    if frags.len() > 0 {
        let p = frags.drop_last();
        assert forall|k: int| 0 <= k < p.len() implies unquoted_semicolons(#[trigger] p[k]) == 0 by {
            assert(p[k] == frags[k]);
        }
        lemma_statements_of_no_unquoted_semicolon(p);
        let f = frags.last();
        assert(unquoted_semicolons(frags[frags.len() - 1]) == 0);
        lemma_trim_end_is_prefix(f);
        lemma_prefix_holds_no_unquoted_semicolon(f, trim_end(f).len() as int);
        lemma_trim_start_keeps_semicolons(trim_end(f));
        let rest = statements_of(p);
        let t = trim(f);
        if t.len() > 0 {
            assert forall|k: int| 0 <= k < rest.push(t).len() implies unquoted_semicolons(
                #[trigger] rest.push(t)[k],
            ) == 0 by {
                if k < rest.len() {
                    assert(rest.push(t)[k] == rest[k]);
                }
            }
        }
    }
}

/// Semicolons inside quotes never split a statement and every semicolon
/// outside quotes does: read on its own, no statement of a script holds a
/// semicolon that stands outside quotes.
pub proof fn lemma_statements_hold_no_unquoted_semicolon(input: Seq<char>)
    ensures
        forall|k: int|
            0 <= k < candidate_statements(input).len() ==> unquoted_semicolons(
                #[trigger] candidate_statements(input)[k],
            ) == 0,
{
    lemma_fragments_hold_no_unquoted_semicolon(strip_comments(input));
    lemma_statements_of_no_unquoted_semicolon(scan_fragments(strip_comments(input)));
}

proof fn lemma_trim_end_keeps_semicolons(s: Seq<char>)
    ensures
        semicolons(trim_end(s)) == semicolons(s),
    decreases s.len(),
{
    if s.len() > 0 && is_white_space(s.last()) {
        lemma_trim_end_keeps_semicolons(s.drop_last());
    }
}

proof fn lemma_trim_start_keeps_count(s: Seq<char>)
    ensures
        semicolons(trim_start(s)) == semicolons(s),
    decreases s.len(),
{
    if s.len() > 0 && is_white_space(s[0]) {
        lemma_trim_start_keeps_count(s.drop_first());
        let head = seq![s[0]];
        lemma_semicolons_concat(head, s.drop_first());
        assert(head + s.drop_first() =~= s);
        assert(head.drop_last() =~= Seq::<char>::empty());
        assert(head.last() == s[0]);
        assert(head.len() == 1);
        assert(s[0] != ';');
        assert(semicolons(head.drop_last()) == 0);
        assert(semicolons(head) == 0);
    }
}

proof fn lemma_trim_keeps_semicolons(s: Seq<char>)
    ensures
        semicolons(trim(s)) == semicolons(s),
{
    lemma_trim_end_keeps_semicolons(s);
    lemma_trim_start_keeps_count(trim_end(s));
}

proof fn lemma_statements_of_semicolons(frags: Seq<Seq<char>>)
    ensures
        total_semicolons(statements_of(frags)) == total_semicolons(frags),
    decreases frags.len(),
{
    if frags.len() > 0 {
        let p = frags.drop_last();
        lemma_statements_of_semicolons(p);
        lemma_trim_keeps_semicolons(frags.last());
        let t = trim(frags.last());
        if t.len() == 0 {
            assert(semicolons(t) == 0);
        } else {
            assert(statements_of(p).push(t).drop_last() =~= statements_of(p));
        }
    }
}

/// Every semicolon inside quotes is kept and every other one is consumed
/// as a boundary: the statements of a script hold, together, as many
/// semicolons as its text without comment lines holds inside quotes.
pub proof fn lemma_statements_keep_quoted_semicolons(input: Seq<char>)
    ensures
        total_semicolons(candidate_statements(input)) + unquoted_semicolons(strip_comments(input))
            == semicolons(strip_comments(input)),
{
    lemma_quoted_semicolons_kept(strip_comments(input));
    lemma_statements_of_semicolons(scan_fragments(strip_comments(input)));
}

/// A group of raw SQL statements from a single script, in order.
#[derive(Debug)]
pub struct StatementGroup(Vec<Statement>);

impl View for StatementGroup {
    type V = Seq<Seq<char>>;

    closed spec fn view(&self) -> Seq<Seq<char>> {
        self.0@.map_values(|s: Statement| s@)
    }
}

impl StatementGroup {
    /// Parses a script into a group; see [`parse`].
    pub fn parse(input: &str) -> (r: Result<StatementGroup, String>)
        ensures
            match r {
                Ok(g) => parse_result(input@) == Ok::<Seq<Seq<char>>, Seq<char>>(g@),
                Err(m) => parse_result(input@) == Err::<Seq<Seq<char>>, Seq<char>>(m@),
            },
    {
        match parse(input) {
            Ok(v) => Ok(StatementGroup(v)),
            Err(m) => Err(m),
        }
    }

    /// How many statements the group holds.
    pub fn len(&self) -> (r: usize)
        ensures
            r == self@.len(),
    {
        self.0.len()
    }

    /// The statements, in order.
    pub fn iter(&self) -> (r: std::slice::Iter<'_, Statement>)
        ensures
            vstd::std_specs::slice::into_iter_elts(r).map_values(|s: Statement| s@) == self@,
            vstd::std_specs::iter::IteratorSpec::initial_value_relation(&r, &r),
    {
        self.0.as_slice().iter()
    }
}

impl<'a> std::convert::TryFrom<&'a str> for StatementGroup {
    type Error = String;

    /// Attempts to parse the input into individual statements; see [`parse`].
    fn try_from(input: &'a str) -> (r: Result<StatementGroup, String>)
        ensures
            match r {
                Ok(g) => parse_result(input@) == Ok::<Seq<Seq<char>>, Seq<char>>(g@),
                Err(m) => parse_result(input@) == Err::<Seq<Seq<char>>, Seq<char>>(m@),
            },
    {
        StatementGroup::parse(input)
    }
}

/// The conversion states its result over `parse_result` in its own
/// `ensures`; a group value cannot be built in a specification, so no
/// `try_from_spec` is offered through the trait.
impl<'a> vstd::std_specs::convert::TryFromSpecImpl<&'a str> for StatementGroup {
    open spec fn obeys_try_from_spec() -> bool {
        false
    }

    open spec fn try_from_spec(v: &'a str) -> Result<StatementGroup, String> {
        vstd::pervasive::arbitrary()
    }
}

} // verus!
