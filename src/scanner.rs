//! The quote-aware scanner: it reads a script one character at a time and
//! cuts it into fragments at each semicolon that stands outside quotes.
use vstd::prelude::*;

verus! {

/// The quoting context the scanner is in.
#[derive(Clone, Copy, Debug, PartialEq, Eq, Structural)]
pub enum ScanMode {
    /// Outside any quotes: a semicolon here ends a fragment.
    Unquoted,
    /// Inside a single-quoted text literal.
    InString,
    /// Inside a double-quoted identifier.
    InDelimitedIdentifier,
}

/// The mode after reading `c` in `mode`. A single quote opens or closes a
/// string unless it stands in an identifier; a double quote opens or closes
/// an identifier unless it stands in a string.
pub open spec fn next_mode(mode: ScanMode, c: char) -> ScanMode {
    match mode {
        ScanMode::Unquoted => {
            if c == '\'' {
                ScanMode::InString
            } else if c == '"' {
                ScanMode::InDelimitedIdentifier
            } else {
                ScanMode::Unquoted
            }
        },
        ScanMode::InString => {
            if c == '\'' {
                ScanMode::Unquoted
            } else {
                ScanMode::InString
            }
        },
        ScanMode::InDelimitedIdentifier => {
            if c == '"' {
                ScanMode::Unquoted
            } else {
                ScanMode::InDelimitedIdentifier
            }
        },
    }
}

/// Whether `c`, read in `mode`, ends the current fragment.
pub open spec fn ends_fragment(mode: ScanMode, c: char) -> bool {
    c == ';' && mode == ScanMode::Unquoted
}

/// The fragments after reading `c` in `mode`: either a fresh empty fragment
/// is started, or `c` is appended verbatim to the last one.
pub open spec fn next_fragments(frags: Seq<Seq<char>>, mode: ScanMode, c: char) -> Seq<Seq<char>> {
    if ends_fragment(mode, c) {
        frags.push(Seq::empty())
    } else {
        frags.update(frags.len() - 1, frags.last().push(c))
    }
}

/// The mode after reading all of `s`.
pub open spec fn scan_mode(s: Seq<char>) -> ScanMode
    decreases s.len(),
{
    if s.len() == 0 {
        ScanMode::Unquoted
    } else {
        next_mode(scan_mode(s.drop_last()), s.last())
    }
}

/// The fragments after reading all of `s`; before anything is read there is
/// one empty fragment.
pub open spec fn scan_fragments(s: Seq<char>) -> Seq<Seq<char>>
    decreases s.len(),
{
    if s.len() == 0 {
        seq![Seq::empty()]
    } else {
        next_fragments(scan_fragments(s.drop_last()), scan_mode(s.drop_last()), s.last())
    }
}

/// Whether the semicolon at `i`, if there is one, ends a fragment.
pub open spec fn is_unquoted_semicolon(s: Seq<char>, i: int) -> bool {
    ends_fragment(scan_mode(s.take(i)), s[i])
}

/// How many semicolons of `s` stand outside quotes.
pub open spec fn unquoted_semicolons(s: Seq<char>) -> nat
    decreases s.len(),
{
    if s.len() == 0 {
        0
    } else if ends_fragment(scan_mode(s.drop_last()), s.last()) {
        unquoted_semicolons(s.drop_last()) + 1
    } else {
        unquoted_semicolons(s.drop_last())
    }
}

/// The fragments put back together, with a semicolon between neighbours.
pub open spec fn join_fragments(frags: Seq<Seq<char>>) -> Seq<char>
    decreases frags.len(),
{
    if frags.len() <= 1 {
        if frags.len() == 0 {
            Seq::empty()
        } else {
            frags[0]
        }
    } else {
        join_fragments(frags.drop_last()) + seq![';'] + frags.last()
    }
}

/// Splitting happens exactly at the semicolons that stand outside quotes:
/// there is one fragment more than there are such semicolons, and putting
/// the fragments back together with a semicolon between neighbours gives
/// the input again, so every other character, quoted semicolons included,
/// stays where it was.
pub proof fn lemma_split_at_unquoted_semicolons(s: Seq<char>)
    ensures
        scan_fragments(s).len() == 1 + unquoted_semicolons(s),
        join_fragments(scan_fragments(s)) == s,
    decreases s.len(),
{
    if s.len() > 0 {
        let p = s.drop_last();
        lemma_split_at_unquoted_semicolons(p);
        let f = scan_fragments(p);
        let c = s.last();
        if ends_fragment(scan_mode(p), c) {
            assert(f.push(Seq::empty()).drop_last() =~= f);
        } else {
            let g = f.update(f.len() - 1, f.last().push(c));
            if f.len() > 1 {
                assert(g.drop_last() =~= f.drop_last());
            }
        }
        assert(p.push(c) =~= s);
    } else {
        assert(s =~= Seq::<char>::empty());
    }
}

/// One more character splits only when it is a semicolon read outside
/// quotes; a semicolon read inside quotes is kept in the current fragment.
pub proof fn lemma_semicolon_in_quotes_kept(s: Seq<char>)
    requires
        scan_mode(s) != ScanMode::Unquoted,
    ensures
        scan_fragments(s.push(';')).len() == scan_fragments(s).len(),
        scan_fragments(s.push(';')).last() == scan_fragments(s).last().push(';'),
        scan_mode(s.push(';')) == scan_mode(s),
{
    lemma_split_at_unquoted_semicolons(s);
    assert(s.push(';').drop_last() =~= s);
}

/// A semicolon read outside quotes starts a fresh, empty fragment.
pub proof fn lemma_unquoted_semicolon_splits(s: Seq<char>)
    requires
        scan_mode(s) == ScanMode::Unquoted,
    ensures
        scan_fragments(s.push(';')) == scan_fragments(s).push(Seq::empty()),
        scan_mode(s.push(';')) == ScanMode::Unquoted,
{
    assert(s.push(';').drop_last() =~= s);
}

/// Text with no semicolon outside quotes stays in one fragment.
pub proof fn lemma_single_fragment(s: Seq<char>)
    requires
        unquoted_semicolons(s) == 0,
    ensures
        scan_fragments(s) == seq![s],
{
    lemma_split_at_unquoted_semicolons(s);
    assert(scan_fragments(s) =~= seq![s]);
}

/// No fragment holds a semicolon that, read from the start of the fragment,
/// stands outside quotes; the last fragment ends in the mode of the whole.
pub proof fn lemma_fragments_hold_no_unquoted_semicolon(s: Seq<char>)
    ensures
        forall|k: int|
            0 <= k < scan_fragments(s).len() ==> unquoted_semicolons(#[trigger] scan_fragments(s)[k])
                == 0,
        scan_mode(scan_fragments(s).last()) == scan_mode(s),
    decreases s.len(),
{
    lemma_split_at_unquoted_semicolons(s);
    if s.len() > 0 {
        let p = s.drop_last();
        lemma_fragments_hold_no_unquoted_semicolon(p);
        lemma_split_at_unquoted_semicolons(p);
        let f = scan_fragments(p);
        let c = s.last();
        if ends_fragment(scan_mode(p), c) {
            let g = f.push(Seq::<char>::empty());
            assert forall|k: int| 0 <= k < g.len() implies unquoted_semicolons(#[trigger] g[k]) == 0 by {
                if k < f.len() {
                    assert(g[k] == f[k]);
                }
            }
        } else {
            let last = f.last();
            let g = f.update(f.len() - 1, last.push(c));
            assert(last.push(c).drop_last() =~= last);
            assert forall|k: int| 0 <= k < g.len() implies unquoted_semicolons(#[trigger] g[k]) == 0 by {
                if k < f.len() - 1 {
                    assert(g[k] == f[k]);
                }
            }
        }
    }
}

/// A fragment in which no semicolon stands outside quotes keeps that
/// property when cut short at the end.
pub proof fn lemma_prefix_holds_no_unquoted_semicolon(s: Seq<char>, j: int)
    requires
        0 <= j <= s.len(),
        unquoted_semicolons(s) == 0,
    ensures
        unquoted_semicolons(s.take(j)) == 0,
    decreases s.len() - j,
{
    if j < s.len() {
        assert(s.drop_last().len() == s.len() - 1);
        lemma_prefix_holds_no_unquoted_semicolon(s.drop_last(), j);
        assert(s.drop_last().take(j) =~= s.take(j));
    } else {
        assert(s.take(j) =~= s);
    }
}

/// A leading character that is neither a quote nor a semicolon changes
/// neither the mode nor which semicolons stand outside quotes.
pub proof fn lemma_drop_plain_first(s: Seq<char>)
    requires
        s.len() > 0,
        s[0] != '\'' && s[0] != '"' && s[0] != ';',
    ensures
        scan_mode(s.drop_first()) == scan_mode(s),
        unquoted_semicolons(s.drop_first()) == unquoted_semicolons(s),
    decreases s.len(),
{
    if s.len() == 1 {
        assert(s.drop_last() =~= Seq::<char>::empty());
        assert(s.drop_first() =~= Seq::<char>::empty());
    } else {
        let p = s.drop_last();
        lemma_drop_plain_first(p);
        assert(s.drop_first().drop_last() =~= p.drop_first());
        assert(s.drop_first().last() == s.last());
    }
}

/// How many semicolons `s` holds.
pub open spec fn semicolons(s: Seq<char>) -> nat
    decreases s.len(),
{
    if s.len() == 0 {
        0
    } else if s.last() == ';' {
        semicolons(s.drop_last()) + 1
    } else {
        semicolons(s.drop_last())
    }
}

/// How many semicolons the fragments hold together.
pub open spec fn total_semicolons(frags: Seq<Seq<char>>) -> nat
    decreases frags.len(),
{
    if frags.len() == 0 {
        0
    } else {
        total_semicolons(frags.drop_last()) + semicolons(frags.last())
    }
}

/// Semicolons add up over concatenation.
pub proof fn lemma_semicolons_concat(a: Seq<char>, b: Seq<char>)
    ensures
        semicolons(a + b) == semicolons(a) + semicolons(b),
    decreases b.len(),
{
    if b.len() == 0 {
        assert(a + b =~= a);
    } else {
        lemma_semicolons_concat(a, b.drop_last());
        assert((a + b).drop_last() =~= a + b.drop_last());
    }
}

proof fn lemma_join_semicolons(frags: Seq<Seq<char>>)
    requires
        frags.len() >= 1,
    ensures
        semicolons(join_fragments(frags)) == total_semicolons(frags) + frags.len() - 1,
    decreases frags.len(),
{
    if frags.len() == 1 {
        assert(frags.drop_last() =~= Seq::<Seq<char>>::empty());
        assert(total_semicolons(frags.drop_last()) == 0);
        assert(frags.last() == frags[0]);
    } else {
        let p = frags.drop_last();
        lemma_join_semicolons(p);
        lemma_semicolons_concat(join_fragments(p), seq![';']);
        lemma_semicolons_concat(join_fragments(p) + seq![';'], frags.last());
        assert(seq![';'].drop_last() =~= Seq::<char>::empty());
        assert(semicolons(Seq::<char>::empty()) == 0);
        assert(seq![';'].last() == ';');
        assert(semicolons(seq![';']) == 1);
    }
}

/// Every semicolon inside quotes is kept: the fragments hold as many
/// semicolons as the text holds inside quotes, the others having become
/// the boundaries between fragments.
pub proof fn lemma_quoted_semicolons_kept(s: Seq<char>)
    ensures
        total_semicolons(scan_fragments(s)) + unquoted_semicolons(s) == semicolons(s),
{
    lemma_split_at_unquoted_semicolons(s);
    lemma_join_semicolons(scan_fragments(s));
}

/// A scanner partway through a script: the fragments finished so far, the
/// fragment being filled, and the quoting context.
pub struct Parser {
    done: Vec<Vec<char>>,
    current: Vec<char>,
    mode: ScanMode,
}

impl View for Parser {
    type V = (Seq<Seq<char>>, ScanMode);

    /// All fragments, the current one last, and the mode.
    closed spec fn view(&self) -> (Seq<Seq<char>>, ScanMode) {
        (self.done@.map_values(|f: Vec<char>| f@).push(self.current@), self.mode)
    }
}

/// A scanner always holds at least one fragment: the one being filled.
pub proof fn lemma_parser_has_fragment(p: &Parser)
    ensures
        p@.0.len() >= 1,
{
}

impl Parser {
    /// A scanner that has read nothing.
    pub fn new() -> (r: Parser)
        ensures
            r@ == (scan_fragments(Seq::empty()), scan_mode(Seq::empty())),
    {
        let r = Parser { done: Vec::new(), current: Vec::new(), mode: ScanMode::Unquoted };
        assert(r@.0 =~= seq![Seq::<char>::empty()]);
        r
    }

    /// The quoting context after what was read so far.
    pub fn mode(&self) -> (r: ScanMode)
        ensures
            r == self@.1,
    {
        self.mode
    }

    /// Reads one character: it toggles a quoting context, ends the current
    /// fragment (an unquoted semicolon, which is dropped), or is appended to
    /// the current fragment.
    pub fn accept(&mut self, c: char)
        ensures
            final(self)@.1 == next_mode(old(self)@.1, c),
            final(self)@.0 == next_fragments(old(self)@.0, old(self)@.1, c),
    {
        let ghost before = self@;
        if c == '\'' && self.mode != ScanMode::InDelimitedIdentifier {
            self.mode = if self.mode == ScanMode::InString {
                ScanMode::Unquoted
            } else {
                ScanMode::InString
            };
        } else if c == '"' && self.mode != ScanMode::InString {
            self.mode = if self.mode == ScanMode::InDelimitedIdentifier {
                ScanMode::Unquoted
            } else {
                ScanMode::InDelimitedIdentifier
            };
        }
        if c == ';' && self.mode == ScanMode::Unquoted {
            let mut finished: Vec<char> = Vec::new();
            std::mem::swap(&mut finished, &mut self.current);
            self.done.push(finished);
            assert(self@.0 =~= before.0.push(Seq::empty()));
        } else {
            self.current.push(c);
            assert(self@.0 =~= before.0.update(before.0.len() - 1, before.0.last().push(c)));
        }
    }

    /// Hands out all fragments, the current one last.
    pub fn into_fragments(self) -> (r: Vec<Vec<char>>)
        ensures
            r@.map_values(|f: Vec<char>| f@) == self@.0,
    {
        let mut r = self.done;
        r.push(self.current);
        assert(r@.map_values(|f: Vec<char>| f@) =~= self@.0);
        r
    }
}

/// Scans all of `s`.
pub fn scan(s: &Vec<char>) -> (r: Vec<Vec<char>>)
    ensures
        r@.map_values(|f: Vec<char>| f@) == scan_fragments(s@),
{
    let mut parser = Parser::new();
    let mut i: usize = 0;
    while i < s.len()
        invariant
            i <= s.len(),
            parser@ == (scan_fragments(s@.take(i as int)), scan_mode(s@.take(i as int))),
        decreases s.len() - i,
    {
        parser.accept(s[i]);
        i = i + 1;
        assert(s@.take(i as int).drop_last() =~= s@.take(i - 1));
    }
    assert(s@.take(s.len() as int) =~= s@);
    parser.into_fragments()
}

} // verus!
