//! The block-list document: a hosts-style file held as ordered lines, with
//! an index of the lines recognized as managed entries.
//!
//! A managed line is either a locked marker, `<addr> <domain>`, or a
//! commented (unlocked) marker, `# <addr> <domain>`; both may carry leading
//! whitespace and arbitrary trailing text.  Every other line is opaque and
//! preserved verbatim.

use vstd::prelude::*;
use crate::util::StrMap;
use crate::util::MutDict;

verus! {

/// Characters that may appear in an address or domain token: anything but
/// space, tab, `#` and the line separator.
pub open spec fn is_token_char(c: char) -> bool {
    c != ' ' && c != '\t' && c != '#' && c != '\n'
}

/// Space or tab: the whitespace the line grammar skips.
pub open spec fn is_space_char(c: char) -> bool {
    c == ' ' || c == '\t'
}

/// A non-empty run of token characters.
pub open spec fn valid_token(s: Seq<char>) -> bool {
    s.len() > 0 && forall|i: int| 0 <= i < s.len() ==> is_token_char(#[trigger] s[i])
}

/// Index of the first line separator, or the length when there is none.
pub open spec fn newline_pos(s: Seq<char>) -> int
    decreases s.len(),
{
    if s.len() == 0 {
        0
    } else if s[0] == '\n' {
        0
    } else {
        1 + newline_pos(s.drop_first())
    }
}

/// What `newline_pos` finds: the earliest separator.
pub proof fn lemma_newline_pos(s: Seq<char>)
    ensures
        0 <= newline_pos(s) <= s.len(),
        forall|i: int| 0 <= i < newline_pos(s) ==> s[i] != '\n',
        newline_pos(s) < s.len() ==> s[newline_pos(s)] == '\n',
    decreases s.len(),
{
    if s.len() > 0 && s[0] != '\n' {
        let t = s.drop_first();
        lemma_newline_pos(t);
        assert forall|i: int| 0 <= i < newline_pos(s) implies s[i] != '\n' by {
            if i > 0 {
                assert(t[i - 1] == s[i]);
                assert(t[i - 1] != '\n');
            }
        }
        if newline_pos(s) < s.len() {
            assert(t[newline_pos(t)] == s[newline_pos(s)]);
        }
    }
}

/// Any position with separator-free text before it and a separator (or the
/// end) at it is the one `newline_pos` finds.
pub proof fn lemma_newline_pos_unique(s: Seq<char>, q: int)
    requires
        0 <= q <= s.len(),
        forall|i: int| 0 <= i < q ==> s[i] != '\n',
        q < s.len() ==> s[q] == '\n',
    ensures
        newline_pos(s) == q,
    decreases s.len(),
{
    if s.len() == 0 {
    } else if s[0] == '\n' {
        assert(q == 0);
    } else {
        assert(q >= 1);
        let t = s.drop_first();
        assert(forall|i: int| 0 <= i < t.len() ==> t[i] == s[i + 1]);
        lemma_newline_pos_unique(t, q - 1);
    }
}

/// The lines of `s`: the separator-free pieces between `\n` characters.
/// Text without a separator is a single line, so there is always at least
/// one piece, and splitting keeps a trailing empty line.
pub open spec fn spec_split_lines(s: Seq<char>) -> Seq<Seq<char>>
    decreases s.len(),
{
    let p = newline_pos(s);
    if !(0 <= p && p < s.len()) {
        seq![s]
    } else {
        seq![s.subrange(0, p)] + spec_split_lines(s.subrange(p + 1, s.len() as int))
    }
}

/// The text of `lines` with a separator between consecutive lines.
pub open spec fn spec_join_lines(lines: Seq<Seq<char>>) -> Seq<char>
    decreases lines.len(),
{
    if lines.len() == 0 {
        Seq::empty()
    } else if lines.len() == 1 {
        lines[0]
    } else {
        lines[0] + seq!['\n'] + spec_join_lines(lines.drop_first())
    }
}

/// Every line of a split is separator-free, and there is at least one.
pub proof fn lemma_split_lines_form(s: Seq<char>)
    ensures
        spec_split_lines(s).len() >= 1,
        forall|i: int, j: int|
            0 <= i < spec_split_lines(s).len() && 0 <= j < spec_split_lines(s)[i].len()
                ==> #[trigger] spec_split_lines(s)[i][j] != '\n',
    decreases s.len(),
{
    let p = newline_pos(s);
    lemma_newline_pos(s);
    if p == s.len() {
    } else {
        lemma_split_lines_form(s.subrange(p + 1, s.len() as int));
        let head = s.subrange(0, p);
        let tail = spec_split_lines(s.subrange(p + 1, s.len() as int));
        assert forall|i: int, j: int|
            0 <= i < spec_split_lines(s).len() && 0 <= j < spec_split_lines(s)[i].len()
                implies #[trigger] spec_split_lines(s)[i][j] != '\n' by {
            if i == 0 {
                assert(spec_split_lines(s)[0] == head);
                assert(head[j] == s[j]);
            } else {
                assert(spec_split_lines(s)[i] == tail[i - 1]);
            }
        }
    }
}

/// Joining separator-free lines and splitting again gives the lines back.
pub proof fn lemma_split_join(lines: Seq<Seq<char>>)
    requires
        lines.len() >= 1,
        forall|i: int, j: int|
            0 <= i < lines.len() && 0 <= j < lines[i].len() ==> #[trigger] lines[i][j] != '\n',
    ensures
        spec_split_lines(spec_join_lines(lines)) == lines,
    decreases lines.len(),
{
    let s = spec_join_lines(lines);
    if lines.len() == 1 {
        lemma_newline_pos_unique(s, s.len() as int);
        assert(spec_split_lines(s) =~= lines);
    } else {
        let rest = lines.drop_first();
        let head = lines[0];
        assert(s == head + seq!['\n'] + spec_join_lines(rest));
        assert forall|i: int| 0 <= i < head.len() implies s[i] != '\n' by {
            assert(s[i] == head[i]);
        }
        assert(s[head.len() as int] == '\n');
        lemma_newline_pos_unique(s, head.len() as int);
        assert(s.subrange(0, head.len() as int) =~= head);
        assert(s.subrange(head.len() as int + 1, s.len() as int) =~= spec_join_lines(rest));
        assert forall|i: int, j: int|
            0 <= i < rest.len() && 0 <= j < rest[i].len() implies #[trigger] rest[i][j]
            != '\n' by {
            assert(rest[i] == lines[i + 1]);
        }
        lemma_split_join(rest);
        assert(spec_split_lines(s) =~= seq![head] + rest);
        assert(seq![head] + rest =~= lines);
    }
}

/// Index of the first non-blank character at or after `i` (blank meaning
/// space or tab), or the length.
pub open spec fn skip_spaces(s: Seq<char>, i: int) -> int
    decreases s.len() - i,
{
    if i < 0 || i >= s.len() {
        s.len() as int
    } else if is_space_char(s[i]) {
        skip_spaces(s, i + 1)
    } else {
        i
    }
}

/// Index of the first non-token character at or after `i`, or the length.
pub open spec fn token_end(s: Seq<char>, i: int) -> int
    decreases s.len() - i,
{
    if i < 0 || i >= s.len() {
        s.len() as int
    } else if is_token_char(s[i]) {
        token_end(s, i + 1)
    } else {
        i
    }
}

/// Bounds and content of a blank run.
pub proof fn lemma_skip_spaces(s: Seq<char>, i: int)
    requires
        0 <= i <= s.len(),
    ensures
        i <= skip_spaces(s, i) <= s.len(),
        forall|j: int| i <= j < skip_spaces(s, i) ==> is_space_char(#[trigger] s[j]),
        skip_spaces(s, i) < s.len() ==> !is_space_char(s[skip_spaces(s, i)]),
    decreases s.len() - i,
{
    if i < s.len() && is_space_char(s[i]) {
        lemma_skip_spaces(s, i + 1);
    }
}

/// Bounds and content of a token run.
pub proof fn lemma_token_end(s: Seq<char>, i: int)
    requires
        0 <= i <= s.len(),
    ensures
        i <= token_end(s, i) <= s.len(),
        forall|j: int| i <= j < token_end(s, i) ==> is_token_char(#[trigger] s[j]),
        token_end(s, i) < s.len() ==> !is_token_char(s[token_end(s, i)]),
    decreases s.len() - i,
{
    if i < s.len() && is_token_char(s[i]) {
        lemma_token_end(s, i + 1);
    }
}

/// A locked-marker pattern read from position `i`: optional blanks, an
/// address token, at least one blank, a domain token, then anything.
pub open spec fn spec_lock_pattern(s: Seq<char>, i: int) -> Option<(Seq<char>, Seq<char>)> {
    let a0 = skip_spaces(s, i);
    let a1 = token_end(s, a0);
    if a1 == a0 {
        None
    } else if a1 >= s.len() || !is_space_char(s[a1]) {
        None
    } else {
        let d0 = skip_spaces(s, a1);
        let d1 = token_end(s, d0);
        if d1 == d0 {
            None
        } else {
            Some((s.subrange(a0, a1), s.subrange(d0, d1)))
        }
    }
}

/// What a line says about a domain, if it is a managed line: the address
/// token, the domain token, and whether the line is a locked marker
/// (`true`) or a commented, unlocked one (`false`).
pub open spec fn spec_classify(s: Seq<char>) -> Option<(Seq<char>, Seq<char>, bool)> {
    let i = skip_spaces(s, 0);
    if i < s.len() && s[i] == '#' {
        match spec_lock_pattern(s, i + 1) {
            Some((a, d)) => Some((a, d, false)),
            None => None,
        }
    } else {
        match spec_lock_pattern(s, 0) {
            Some((a, d)) => Some((a, d, true)),
            None => None,
        }
    }
}

/// The tokens a managed line carries are valid tokens.
pub proof fn lemma_classify_tokens(s: Seq<char>)
    requires
        spec_classify(s) is Some,
    ensures
        valid_token((spec_classify(s)->0).0),
        valid_token((spec_classify(s)->0).1),
{
    let i = skip_spaces(s, 0);
    lemma_skip_spaces(s, 0);
    if i < s.len() && s[i] == '#' {
        lemma_lock_pattern_tokens(s, i + 1);
    } else {
        lemma_lock_pattern_tokens(s, 0);
    }
}

/// The tokens a locked-marker pattern carries are valid tokens.
proof fn lemma_lock_pattern_tokens(s: Seq<char>, i: int)
    requires
        0 <= i <= s.len(),
        spec_lock_pattern(s, i) is Some,
    ensures
        valid_token((spec_lock_pattern(s, i)->0).0),
        valid_token((spec_lock_pattern(s, i)->0).1),
{
    let a0 = skip_spaces(s, i);
    lemma_skip_spaces(s, i);
    let a1 = token_end(s, a0);
    lemma_token_end(s, a0);
    let d0 = skip_spaces(s, a1);
    lemma_skip_spaces(s, a1);
    let d1 = token_end(s, d0);
    lemma_token_end(s, d0);
    assert forall|j: int| 0 <= j < s.subrange(a0, a1).len() implies is_token_char(
        #[trigger] s.subrange(a0, a1)[j],
    ) by {
        assert(s.subrange(a0, a1)[j] == s[a0 + j]);
    }
    assert forall|j: int| 0 <= j < s.subrange(d0, d1).len() implies is_token_char(
        #[trigger] s.subrange(d0, d1)[j],
    ) by {
        assert(s.subrange(d0, d1)[j] == s[d0 + j]);
    }
}

/// Index of the first non-blank character at or after `from`.
fn scan_spaces(s: &str, from: usize) -> (r: usize)
    requires
        from <= s@.len(),
    ensures
        r == skip_spaces(s@, from as int),
        from <= r <= s@.len(),
{
    let n = s.unicode_len();
    let mut i: usize = from;
    while i < n
        invariant
            from <= i <= n,
            n == s@.len(),
            skip_spaces(s@, from as int) == skip_spaces(s@, i as int),
        decreases n - i,
    {
        let c = s.get_char(i);
        if !(c == ' ' || c == '\t') {
            return i;
        }
        i = i + 1;
    }
    i
}

/// Index of the first non-token character at or after `from`.
fn scan_token(s: &str, from: usize) -> (r: usize)
    requires
        from <= s@.len(),
    ensures
        r == token_end(s@, from as int),
        from <= r <= s@.len(),
{
    let n = s.unicode_len();
    let mut i: usize = from;
    while i < n
        invariant
            from <= i <= n,
            n == s@.len(),
            token_end(s@, from as int) == token_end(s@, i as int),
        decreases n - i,
    {
        let c = s.get_char(i);
        if c == ' ' || c == '\t' || c == '#' || c == '\n' {
            return i;
        }
        i = i + 1;
    }
    i
}

/// Reads a locked-marker pattern from position `i`.
fn lock_pattern(s: &str, i: usize) -> (r: Option<(String, String)>)
    requires
        i <= s@.len(),
    ensures
        match r {
            Some(p) => spec_lock_pattern(s@, i as int) == Some((p.0@, p.1@)),
            None => spec_lock_pattern(s@, i as int) is None,
        },
{
    let n = s.unicode_len();
    let a0 = scan_spaces(s, i);
    let a1 = scan_token(s, a0);
    if a1 == a0 {
        return None;
    }
    if a1 >= n {
        return None;
    }
    let c = s.get_char(a1);
    if !(c == ' ' || c == '\t') {
        return None;
    }
    let d0 = scan_spaces(s, a1);
    let d1 = scan_token(s, d0);
    if d1 == d0 {
        return None;
    }
    let addr = s.substring_char(a0, a1).to_owned();
    let domain = s.substring_char(d0, d1).to_owned();
    Some((addr, domain))
}

/// Classifies one line of the block list.
fn classify_line(s: &str) -> (r: Option<(String, String, bool)>)
    ensures
        match r {
            Some(p) => spec_classify(s@) == Some((p.0@, p.1@, p.2)),
            None => spec_classify(s@) is None,
        },
{
    let n = s.unicode_len();
    let i = scan_spaces(s, 0);
    if i < n && s.get_char(i) == '#' {
        match lock_pattern(s, i + 1) {
            Some(p) => Some((p.0, p.1, false)),
            None => None,
        }
    } else {
        match lock_pattern(s, 0) {
            Some(p) => Some((p.0, p.1, true)),
            None => None,
        }
    }
}

/// Splits text into its lines.
fn split_lines(s: &str) -> (r: Vec<String>)
    ensures
        r@.map_values(|l: String| l@) == spec_split_lines(s@),
{
    let n = s.unicode_len();
    let mut r: Vec<String> = Vec::new();
    let mut start: usize = 0;
    proof {
        assert(s@.subrange(0, n as int) =~= s@);
        assert(r@.map_values(|l: String| l@) =~= Seq::<Seq<char>>::empty());
    }
    loop
        invariant_except_break
            start <= n,
            n == s@.len(),
            spec_split_lines(s@) =~= r@.map_values(|l: String| l@) + spec_split_lines(
                s@.subrange(start as int, n as int),
            ),
        ensures
            r@.map_values(|l: String| l@) == spec_split_lines(s@),
        decreases n - start,
    {
        let ghost rest = s@.subrange(start as int, n as int);
        let mut p: usize = start;
        while p < n
            invariant
                start <= p <= n,
                n == s@.len(),
                forall|j: int| start <= j < p ==> s@[j] != '\n',
            ensures
                start <= p <= n,
                forall|j: int| start <= j < p ==> s@[j] != '\n',
                p < n ==> s@[p as int] == '\n',
            decreases n - p,
        {
            if s.get_char(p) == '\n' {
                break;
            }
            p = p + 1;
        }
        proof {
            assert forall|j: int| 0 <= j < (p - start) as int implies rest[j] != '\n' by {
                assert(rest[j] == s@[start + j]);
            }
            if p < n {
                assert(rest[(p - start) as int] == s@[p as int]);
            }
            lemma_newline_pos_unique(rest, (p - start) as int);
        }
        let ghost views_before = r@.map_values(|l: String| l@);
        let piece = s.substring_char(start, p).to_owned();
        proof {
            assert(piece@ =~= rest.subrange(0, (p - start) as int));
        }
        r.push(piece);
        proof {
            assert(r@.map_values(|l: String| l@) =~= views_before.push(piece@));
        }
        if p == n {
            proof {
                assert(piece@ =~= rest);
                assert(spec_split_lines(rest) =~= seq![rest]);
                assert(r@.map_values(|l: String| l@) + Seq::<Seq<char>>::empty() =~= r@.map_values(
                    |l: String| l@,
                ));
                assert(views_before + spec_split_lines(rest) =~= views_before.push(rest));
            }
            break;
        }
        proof {
            let q = (p - start) as int;
            assert(spec_split_lines(rest) =~= seq![rest.subrange(0, q)] + spec_split_lines(
                rest.subrange(q + 1, rest.len() as int),
            ));
            assert(rest.subrange(q + 1, rest.len() as int) =~= s@.subrange(
                (p + 1) as int,
                n as int,
            ));
            assert(views_before + spec_split_lines(rest) =~= views_before.push(piece@)
                + spec_split_lines(s@.subrange((p + 1) as int, n as int)));
        }
        start = p + 1;
    }
    r
}

/// What the index records about one managed line.
pub struct LineInfo {
    pub line: int,
    pub locked: bool,
    pub addr: Seq<char>,
}

/// The index a scan of `lines` produces: for every domain that some
/// managed line carries, the position, state and address token of the
/// last such line.
pub open spec fn spec_parse_index(lines: Seq<Seq<char>>) -> Map<Seq<char>, LineInfo>
    decreases lines.len(),
{
    if lines.len() == 0 {
        Map::empty()
    } else {
        let m = spec_parse_index(lines.drop_last());
        match spec_classify(lines.last()) {
            Some(p) => m.insert(
                p.1,
                LineInfo { line: lines.len() - 1, locked: p.2, addr: p.0 },
            ),
            None => m,
        }
    }
}

/// An exec index record for one managed line.
pub struct HostEntry {
    pub line: usize,
    pub locked: bool,
    pub addr: String,
}

/// What a `HostEntry` denotes.
pub open spec fn entry_info(e: HostEntry) -> LineInfo {
    LineInfo { line: e.line as int, locked: e.locked, addr: e.addr@ }
}

/// The address token used for lines the document knows nothing about.
pub open spec fn default_addr() -> Seq<char> {
    seq!['1', '2', '7', '.', '0', '.', '0', '.', '1']
}

/// The address the document would use for `d`: the remembered one, or the
/// default loopback address.
pub open spec fn spec_addr_of(m: Map<Seq<char>, LineInfo>, d: Seq<char>) -> Seq<char> {
    if m.contains_key(d) {
        m[d].addr
    } else {
        default_addr()
    }
}

/// Whether the document currently marks `d` as locked: a locked marker
/// line exists for it.  A commented line or no line at all means unlocked.
pub open spec fn spec_doc_locked(m: Map<Seq<char>, LineInfo>, d: Seq<char>) -> bool {
    m.contains_key(d) && m[d].locked
}

/// The text of a managed line for `domain`.
pub open spec fn spec_host_line(addr: Seq<char>, domain: Seq<char>, locked: bool) -> Seq<char> {
    if locked {
        addr + seq![' '] + domain
    } else {
        seq!['#', ' '] + addr + seq![' '] + domain
    }
}

/// The block-list document: its lines in order, and the index built when
/// it was parsed.  Rewrites touch the lines only; the index keeps
/// describing the document as it was read, which is what one
/// reconciliation pass works against.
pub struct Hosts {
    lines: Vec<String>,
    index: StrMap<HostEntry>,
}

impl Hosts {
    /// The lines of the document.
    pub closed spec fn lines_view(&self) -> Seq<Seq<char>> {
        self.lines@.map_values(|l: String| l@)
    }

    /// What the index records, per domain.
    pub closed spec fn index_info(&self) -> Map<Seq<char>, LineInfo> {
        self.index.as_map().map_values(|e: HostEntry| entry_info(e))
    }

    /// The index container itself is well-formed.
    pub closed spec fn index_wf(&self) -> bool {
        self.index.wf()
    }

    /// A usable document: at least one line, no line separator inside a
    /// line, and every index record points at a line and carries valid
    /// tokens.
    pub open spec fn wf(&self) -> bool {
        &&& self.index_wf()
        &&& self.lines_view().len() >= 1
        &&& forall|i: int, j: int|
            0 <= i < self.lines_view().len() && 0 <= j < self.lines_view()[i].len()
                ==> #[trigger] self.lines_view()[i][j] != '\n'
        &&& forall|d: Seq<char>|
            #[trigger] self.index_info().contains_key(d) ==> 0 <= self.index_info()[d].line
                < self.lines_view().len() && valid_token(self.index_info()[d].addr)
                && valid_token(d)
    }

    /// Reads a document: splits the text into lines and indexes every
    /// line recognized as a managed entry, later lines winning.
    pub fn parse(hosts_file: String) -> (r: Hosts)
        ensures
            r.wf(),
            r.lines_view() == spec_split_lines(hosts_file@),
            r.index_info() == spec_parse_index(r.lines_view()),
    {
        let lines = split_lines(hosts_file.as_str());
        let ghost lv = lines@.map_values(|l: String| l@);
        proof {
            lemma_split_lines_form(hosts_file@);
        }
        let mut index: StrMap<HostEntry> = StrMap::new();
        let n = lines.len();
        let mut i: usize = 0;
        proof {
            assert(index.as_map().map_values(|e: HostEntry| entry_info(e)) =~= spec_parse_index(
                lv.subrange(0, 0),
            ));
        }
        while i < n
            invariant
                i <= n,
                n == lines@.len(),
                lv == lines@.map_values(|l: String| l@),
                index.wf(),
                index.as_map().map_values(|e: HostEntry| entry_info(e)) == spec_parse_index(
                    lv.subrange(0, i as int),
                ),
                forall|d: Seq<char>|
                    #[trigger] index.as_map().contains_key(d) ==> index.as_map()[d].line < i
                        && valid_token(index.as_map()[d].addr@) && valid_token(d),
            decreases n - i,
        {
            let ghost pre = index.as_map();
            let ghost prefix = lv.subrange(0, i as int);
            let ghost prefix1 = lv.subrange(0, i as int + 1);
            proof {
                assert(prefix1.drop_last() =~= prefix);
                assert(prefix1.last() == lv[i as int]);
                assert(lv[i as int] == lines@[i as int]@);
            }
            match classify_line(lines[i].as_str()) {
                Some(p) => {
                    let (addr, domain, locked) = p;
                    proof {
                        lemma_classify_tokens(lv[i as int]);
                    }
                    index.set(domain.as_str(), HostEntry { line: i, locked, addr });
                    proof {
                        assert(index.as_map() =~= pre.insert(
                            domain@,
                            HostEntry { line: i, locked, addr: addr },
                        ));
                        assert(index.as_map().map_values(|e: HostEntry| entry_info(e))
                            =~= spec_parse_index(prefix1));
                    }
                },
                None => {
                    proof {
                        assert(index.as_map().map_values(|e: HostEntry| entry_info(e))
                            =~= spec_parse_index(prefix1));
                    }
                },
            }
            i = i + 1;
        }
        proof {
            assert(lv.subrange(0, n as int) =~= lv);
        }
        let r = Hosts { lines, index };
        proof {
            assert(r.lines_view() == lv);
            assert(r.index_info() =~= spec_parse_index(lv));
        }
        r
    }

    /// Whether the document currently marks `domain` as locked.
    pub fn is_locked(&self, domain: &str) -> (r: bool)
        requires
            self.wf(),
        ensures
            r == spec_doc_locked(self.index_info(), domain@),
    {
        match self.index.get(domain) {
            None => false,
            Some(e) => e.locked,
        }
    }

    /// The text of the managed line that marks `domain` as locked or
    /// unlocked, keeping the address token the document already uses for
    /// it, or the default loopback address.
    pub fn host_line(&self, domain: &str, is_locked: bool) -> (r: String)
        requires
            self.wf(),
        ensures
            r@ == spec_host_line(spec_addr_of(self.index_info(), domain@), domain@, is_locked),
    {
        let mut out = String::new();
        if !is_locked {
            out.append("# ");
        }
        match self.index.get(domain) {
            Some(e) => out.append(e.addr.as_str()),
            None => out.append("127.0.0.1"),
        }
        out.append(" ");
        out.append(domain);
        proof {
            reveal_strlit("# ");
            reveal_strlit(" ");
            reveal_strlit("127.0.0.1");
            assert("# "@ =~= seq!['#', ' ']);
            assert(" "@ =~= seq![' ']);
            assert("127.0.0.1"@ =~= default_addr());
            assert(out@ =~= spec_host_line(
                spec_addr_of(self.index_info(), domain@),
                domain@,
                is_locked,
            ));
        }
        out
    }

    /// Rewrites the line for `domain` in place to say `is_locked`, or
    /// appends one when the document has none.  The index is left as it
    /// was.
    pub fn write_state(&mut self, domain: &str, is_locked: bool)
        requires
            old(self).wf(),
            valid_token(domain@),
        ensures
            final(self).wf(),
            final(self).index_info() == old(self).index_info(),
            final(self).lines_view() == spec_write(
                old(self).lines_view(),
                old(self).index_info(),
                domain@,
                is_locked,
            ),
    {
        let line = self.host_line(domain, is_locked);
        proof {
            lemma_host_line_valid(
                spec_addr_of(self.index_info(), domain@),
                domain@,
                is_locked,
            );
        }
        let ghost pre = self.lines_view();
        let pos = match self.index.get(domain) {
            Some(e) => Some(e.line),
            None => None,
        };
        match pos {
            Some(p) => {
                self.lines[p] = line;
                proof {
                    assert(self.lines_view() =~= pre.update(p as int, line@));
                }
            },
            None => {
                self.lines.push(line);
                proof {
                    assert(self.lines_view() =~= pre.push(line@));
                }
            },
        }
    }

    /// The whole document as text.
    pub fn export(&self) -> (r: String)
        ensures
            r@ == spec_join_lines(self.lines_view()),
    {
        let mut out = String::new();
        let n = self.lines.len();
        let mut i: usize = 0;
        while i < n
            invariant
                i <= n,
                n == self.lines@.len(),
                i == 0 ==> out@ =~= Seq::<char>::empty(),
                i > 0 ==> out@ == spec_join_lines(self.lines_view().subrange(0, i as int)),
            decreases n - i,
        {
            if i > 0 {
                out.append("\n");
            }
            let ghost before = out@;
            out.append(self.lines[i].as_str());
            proof {
                reveal_strlit("\n");
                assert("\n"@ =~= seq!['\n']);
                let lv = self.lines_view();
                assert(lv[i as int] == self.lines@[i as int]@);
                if i == 0 {
                    assert(lv.subrange(0, 1) =~= seq![lv[0]]);
                    assert(out@ =~= lv[0]);
                } else {
                    lemma_join_take(lv, i as int + 1);
                    assert(out@ =~= spec_join_lines(lv.subrange(0, i as int)) + seq!['\n']
                        + lv[i as int]);
                }
            }
            i = i + 1;
        }
        proof {
            if n == 0 {
                assert(spec_join_lines(self.lines_view()) =~= Seq::<char>::empty());
            } else {
                assert(self.lines_view().subrange(0, n as int) =~= self.lines_view());
            }
        }
        out
    }
}

/// The lines after one rewrite of the line for `d`.
pub open spec fn spec_write(
    lines: Seq<Seq<char>>,
    m: Map<Seq<char>, LineInfo>,
    d: Seq<char>,
    locked: bool,
) -> Seq<Seq<char>> {
    let content = spec_host_line(spec_addr_of(m, d), d, locked);
    if m.contains_key(d) {
        lines.update(m[d].line, content)
    } else {
        lines.push(content)
    }
}

/// A managed line built from valid tokens has no line separator in it.
pub proof fn lemma_host_line_valid(addr: Seq<char>, domain: Seq<char>, locked: bool)
    requires
        valid_token(addr),
        valid_token(domain),
    ensures
        forall|j: int|
            0 <= j < spec_host_line(addr, domain, locked).len()
                ==> #[trigger] spec_host_line(addr, domain, locked)[j] != '\n',
{
    let l = spec_host_line(addr, domain, locked);
    assert forall|j: int| 0 <= j < l.len() implies #[trigger] l[j] != '\n' by {
        if locked {
            if j < addr.len() {
                assert(l[j] == addr[j]);
                assert(is_token_char(addr[j]));
            } else if j == addr.len() {
                assert(l[j] == ' ');
            } else {
                assert(l[j] == domain[j - addr.len() - 1]);
                assert(is_token_char(domain[j - addr.len() - 1]));
            }
        } else {
            if j == 0 {
                assert(l[j] == '#');
            } else if j == 1 {
                assert(l[j] == ' ');
            } else if j < 2 + addr.len() {
                assert(l[j] == addr[j - 2]);
                assert(is_token_char(addr[j - 2]));
            } else if j == 2 + addr.len() {
                assert(l[j] == ' ');
            } else {
                assert(l[j] == domain[j - addr.len() - 3]);
                assert(is_token_char(domain[j - addr.len() - 3]));
            }
        }
    }
}

/// Whether a line is a managed line for `d`.
pub open spec fn line_domain_is(l: Seq<char>, d: Seq<char>) -> bool {
    spec_classify(l) matches Some(p) && p.1 == d
}

/// Any position with blanks before it and a non-blank (or the end) at it
/// is the one `skip_spaces` finds.
proof fn lemma_skip_spaces_unique(s: Seq<char>, i: int, q: int)
    requires
        0 <= i <= q <= s.len(),
        forall|j: int| i <= j < q ==> is_space_char(#[trigger] s[j]),
        q < s.len() ==> !is_space_char(s[q]),
    ensures
        skip_spaces(s, i) == q,
    decreases q - i,
{
    if i < q {
        lemma_skip_spaces_unique(s, i + 1, q);
    }
}

/// Any position with token characters before it and a non-token one (or
/// the end) at it is the one `token_end` finds.
proof fn lemma_token_end_unique(s: Seq<char>, i: int, q: int)
    requires
        0 <= i <= q <= s.len(),
        forall|j: int| i <= j < q ==> is_token_char(#[trigger] s[j]),
        q < s.len() ==> !is_token_char(s[q]),
    ensures
        token_end(s, i) == q,
    decreases q - i,
{
    if i < q {
        lemma_token_end_unique(s, i + 1, q);
    }
}

/// A freshly written managed line classifies back to exactly the tokens
/// and state it was written with.
pub proof fn lemma_classify_host_line(addr: Seq<char>, d: Seq<char>, locked: bool)
    requires
        valid_token(addr),
        valid_token(d),
    ensures
        spec_classify(spec_host_line(addr, d, locked)) == Some((addr, d, locked)),
{
    let l = spec_host_line(addr, d, locked);
    let a = addr.len() as int;
    let dl = d.len() as int;
    if locked {
        assert(l.len() == a + 1 + dl);
        assert forall|i: int| 0 <= i < a implies l[i] == addr[i] && is_token_char(#[trigger] l[i])
        by {
            assert((addr + seq![' '])[i] == addr[i]);
        }
        assert(l[a] == ' ');
        assert forall|i: int| a + 1 <= i < l.len() implies l[i] == d[i - a - 1] && is_token_char(
            #[trigger] l[i],
        ) by {}
        lemma_skip_spaces_unique(l, 0, 0);
        assert(l[0] != '#');
        lemma_token_end_unique(l, 0, a);
        lemma_skip_spaces_unique(l, a, a + 1);
        lemma_token_end_unique(l, a + 1, l.len() as int);
        assert(l.subrange(0, a) =~= addr);
        assert(l.subrange(a + 1, l.len() as int) =~= d);
    } else {
        assert(l.len() == a + 3 + dl);
        assert(l[0] == '#');
        assert(l[1] == ' ');
        assert forall|i: int| 2 <= i < a + 2 implies l[i] == addr[i - 2] && is_token_char(
            #[trigger] l[i],
        ) by {}
        assert(l[a + 2] == ' ');
        assert forall|i: int| a + 3 <= i < l.len() implies l[i] == d[i - a - 3] && is_token_char(
            #[trigger] l[i],
        ) by {}
        lemma_skip_spaces_unique(l, 0, 0);
        lemma_skip_spaces_unique(l, 1, 2);
        lemma_token_end_unique(l, 2, a + 2);
        lemma_skip_spaces_unique(l, a + 2, a + 3);
        lemma_token_end_unique(l, a + 3, l.len() as int);
        assert(l.subrange(2, a + 2) =~= addr);
        assert(l.subrange(a + 3, l.len() as int) =~= d);
    }
}

/// What the parse-time index says, line by line: every record points at
/// the last line carrying its domain, with that line's tokens and state,
/// and a domain is recorded exactly when some line carries it.
pub proof fn lemma_parse_index_props(lines: Seq<Seq<char>>)
    ensures
        forall|d: Seq<char>|
            #[trigger] spec_parse_index(lines).contains_key(d) <==> exists|i: int|
                0 <= i < lines.len() && line_domain_is(#[trigger] lines[i], d),
        forall|d: Seq<char>|
            #[trigger] spec_parse_index(lines).contains_key(d) ==> ({
                let info = spec_parse_index(lines)[d];
                &&& 0 <= info.line < lines.len()
                &&& spec_classify(lines[info.line]) == Some((info.addr, d, info.locked))
                &&& forall|k: int|
                    info.line < k < lines.len() ==> !line_domain_is(#[trigger] lines[k], d)
            }),
    decreases lines.len(),
{
    if lines.len() > 0 {
        lemma_parse_index_props(lines.drop_last());
        let pre = spec_parse_index(lines.drop_last());
        let last = lines.last();
        let n = lines.len() as int;
        assert(forall|i: int| 0 <= i < n - 1 ==> #[trigger] lines.drop_last()[i] == lines[i]);
        assert forall|d: Seq<char>|
            #[trigger] spec_parse_index(lines).contains_key(d) implies exists|i: int|
            0 <= i < lines.len() && line_domain_is(#[trigger] lines[i], d) by {
            match spec_classify(last) {
                Some(p) => {
                    if d == p.1 {
                        assert(line_domain_is(lines[n - 1], d));
                    } else {
                        assert(pre.contains_key(d));
                        let i = choose|i: int|
                            0 <= i < lines.drop_last().len() && line_domain_is(
                                #[trigger] lines.drop_last()[i],
                                d,
                            );
                        assert(line_domain_is(lines[i], d));
                    }
                },
                None => {
                    assert(pre.contains_key(d));
                    let i = choose|i: int|
                        0 <= i < lines.drop_last().len() && line_domain_is(
                            #[trigger] lines.drop_last()[i],
                            d,
                        );
                    assert(line_domain_is(lines[i], d));
                },
            }
        }
        assert forall|d: Seq<char>|
            (exists|i: int| 0 <= i < lines.len() && line_domain_is(#[trigger] lines[i], d))
                implies #[trigger] spec_parse_index(lines).contains_key(d) by {
            let i = choose|i: int| 0 <= i < lines.len() && line_domain_is(#[trigger] lines[i], d);
            if i < n - 1 {
                assert(line_domain_is(lines.drop_last()[i], d));
                assert(pre.contains_key(d));
            } else {
                assert(line_domain_is(last, d));
            }
        }
        assert forall|d: Seq<char>| #[trigger] spec_parse_index(lines).contains_key(d) implies ({
            let info = spec_parse_index(lines)[d];
            &&& 0 <= info.line < lines.len()
            &&& spec_classify(lines[info.line]) == Some((info.addr, d, info.locked))
            &&& forall|k: int|
                info.line < k < lines.len() ==> !line_domain_is(#[trigger] lines[k], d)
        }) by {
            let info = spec_parse_index(lines)[d];
            let is_last = spec_classify(last) matches Some(p) && p.1 == d;
            if is_last {
                assert(info.line == n - 1);
                assert(spec_classify(lines[n - 1]) == Some((info.addr, d, info.locked)));
            } else {
                assert(pre.contains_key(d));
                assert(spec_parse_index(lines)[d] == pre[d]);
                assert(spec_classify(lines.drop_last()[info.line]) == Some(
                    (info.addr, d, info.locked),
                ));
                assert forall|k: int| info.line < k < lines.len() implies !line_domain_is(
                    #[trigger] lines[k],
                    d,
                ) by {
                    if k < n - 1 {
                        assert(!line_domain_is(lines.drop_last()[k], d));
                    } else {
                        assert(!is_last);
                    }
                }
            }
        }
    }
}

/// Rewriting a managed line with another managed line for the same
/// domain: every other domain's record is untouched, and when the line
/// was the last one for its domain, the record follows the new line.
pub proof fn lemma_parse_index_update(lines: Seq<Seq<char>>, j: int, nl: Seq<char>, e: Seq<char>)
    requires
        0 <= j < lines.len(),
        line_domain_is(lines[j], e),
        line_domain_is(nl, e),
    ensures
        forall|d: Seq<char>|
            d != e ==> (#[trigger] spec_parse_index(lines.update(j, nl)).contains_key(d)
                <==> spec_parse_index(lines).contains_key(d)),
        forall|d: Seq<char>|
            d != e && #[trigger] spec_parse_index(lines).contains_key(d) ==> spec_parse_index(
                lines.update(j, nl),
            )[d] == spec_parse_index(lines)[d],
        (forall|k: int| j < k < lines.len() ==> !line_domain_is(#[trigger] lines[k], e))
            ==> spec_parse_index(lines.update(j, nl)).contains_key(e) && spec_parse_index(
            lines.update(j, nl),
        )[e] == (LineInfo {
            line: j,
            locked: (spec_classify(nl)->0).2,
            addr: (spec_classify(nl)->0).0,
        }),
    decreases lines.len(),
{
    let up = lines.update(j, nl);
    let n = lines.len() as int;
    if j == n - 1 {
        assert(up.drop_last() =~= lines.drop_last());
        assert(up.last() == nl);
        assert(lines.last() == lines[j]);
        let pre = spec_parse_index(lines.drop_last());
        assert(spec_parse_index(up) == pre.insert(
            e,
            LineInfo {
                line: n - 1,
                locked: (spec_classify(nl)->0).2,
                addr: (spec_classify(nl)->0).0,
            },
        ));
        assert(spec_parse_index(lines) == pre.insert(
            e,
            LineInfo {
                line: n - 1,
                locked: (spec_classify(lines[j])->0).2,
                addr: (spec_classify(lines[j])->0).0,
            },
        ));
        assert forall|d: Seq<char>|
            d != e && #[trigger] spec_parse_index(lines).contains_key(d) implies spec_parse_index(
            up,
        )[d] == spec_parse_index(lines)[d] by {
            assert(pre.contains_key(d));
            assert(spec_parse_index(up)[d] == pre[d]);
        }
    } else {
        assert(up.last() == lines.last());
        assert(up.drop_last() =~= lines.drop_last().update(j, nl));
        assert(lines.drop_last()[j] == lines[j]);
        lemma_parse_index_update(lines.drop_last(), j, nl, e);
        assert forall|k: int| j < k < lines.len() - 1 && (forall|k2: int|
            j < k2 < lines.len() ==> !line_domain_is(#[trigger] lines[k2], e)) implies
            !line_domain_is(#[trigger] lines.drop_last()[k], e) by {
            assert(lines.drop_last()[k] == lines[k]);
        }
        let preu = spec_parse_index(up.drop_last());
        let prel = spec_parse_index(lines.drop_last());
        assert forall|d: Seq<char>|
            d != e && #[trigger] spec_parse_index(lines).contains_key(d) implies spec_parse_index(
            up,
        )[d] == spec_parse_index(lines)[d] by {
            match spec_classify(lines.last()) {
                Some(p) => {
                    if d == p.1 {
                        assert(spec_parse_index(up)[d] == spec_parse_index(lines)[d]);
                    } else {
                        assert(prel.contains_key(d));
                        assert(preu[d] == prel[d]);
                    }
                },
                None => {
                    assert(prel.contains_key(d));
                    assert(preu[d] == prel[d]);
                },
            }
        }
        match spec_classify(lines.last()) {
            Some(p) => {
                if forall|k: int| j < k < lines.len() ==> !line_domain_is(#[trigger] lines[k], e) {
                    assert(!line_domain_is(lines[n - 1], e));
                    assert(p.1 != e);
                    assert(preu.contains_key(e) && preu[e] == (LineInfo {
                        line: j,
                        locked: (spec_classify(nl)->0).2,
                        addr: (spec_classify(nl)->0).0,
                    }));
                    assert(spec_parse_index(up)[e] == preu[e]);
                }
            },
            None => {},
        }
    }
}

/// Joining one line more appends a separator and that line.
pub proof fn lemma_join_take(lines: Seq<Seq<char>>, k: int)
    requires
        2 <= k <= lines.len(),
    ensures
        spec_join_lines(lines.subrange(0, k)) == spec_join_lines(lines.subrange(0, k - 1))
            + seq!['\n'] + lines[k - 1],
    decreases k,
{
    if k == 2 {
        assert(lines.subrange(0, 2).drop_first() =~= seq![lines[1]]);
        assert(lines.subrange(0, 2)[0] == lines[0]);
        assert(lines.subrange(0, 1) =~= seq![lines[0]]);
        assert(spec_join_lines(seq![lines[1]]) == lines[1]);
    } else {
        let a = lines.subrange(0, k);
        let b = lines.subrange(0, k - 1);
        assert(a.drop_first() =~= lines.subrange(1, k));
        assert(b.drop_first() =~= lines.subrange(1, k - 1));
        let t = lines.subrange(1, lines.len() as int);
        assert(lines.subrange(1, k) =~= t.subrange(0, k - 1));
        assert(lines.subrange(1, k - 1) =~= t.subrange(0, k - 2));
        lemma_join_take(t, k - 1);
        assert(t[k - 2] == lines[k - 1]);
        assert(spec_join_lines(a) == a[0] + seq!['\n'] + spec_join_lines(t.subrange(0, k - 1)));
        assert(spec_join_lines(b) == b[0] + seq!['\n'] + spec_join_lines(t.subrange(0, k - 2)));
        assert(a[0] == lines[0] && b[0] == lines[0]);
        assert(spec_join_lines(a) =~= spec_join_lines(b) + seq!['\n'] + lines[k - 1]);
    }
}

} // verus!
