use vstd::prelude::*;

verus! {

/// A literal of the input format: a signed integer whose absolute value names
/// a variable and whose sign gives the asserted polarity.
pub type InputVariable = isize;

/// A clause: a disjunction of literals, kept in the order they were read.
pub type InputClause = Vec<InputVariable>;

/// An owned copy of a clause.
pub fn copy_clause(c: &InputClause) -> (r: InputClause)
    ensures
        r@ == c@,
{
    let mut r: Vec<isize> = Vec::new();
    let mut i: usize = 0;
    while i < c.len()
        invariant
            i <= c.len(),
            r@ == c@.take(i as int),
        decreases c.len() - i,
    {
        r.push(c[i]);
        proof {
            assert(c@.take(i as int).push(c@[i as int]) =~= c@.take(i as int + 1));
        }
        i = i + 1;
    }
    proof {
        assert(c@.take(c.len() as int) =~= c@);
    }
    r
}

/// The token separators of the format: ASCII whitespace (space, tab, line
/// feed, vertical tab, form feed, carriage return).
pub open spec fn is_space(b: u8) -> bool {
    b == 32 || b == 9 || b == 10 || b == 11 || b == 12 || b == 13
}

/// An ASCII decimal digit.
pub open spec fn is_digit(b: u8) -> bool {
    48 <= b <= 57
}

/// A non-empty run of decimal digits.
pub open spec fn is_digits(t: Seq<u8>) -> bool {
    t.len() > 0 && forall|i: int| 0 <= i < t.len() ==> is_digit(#[trigger] t[i])
}

/// The numeric value of a digit run.
pub open spec fn uint_val(t: Seq<u8>) -> nat
    decreases t.len(),
{
    if t.len() == 0 {
        0
    } else {
        uint_val(t.drop_last()) * 10 + (if is_digit(t.last()) {
            (t.last() - 48) as nat
        } else {
            0
        })
    }
}

/// A token with an optional leading plus sign stripped, as unsigned decimal
/// parsing treats it.
pub open spec fn unsigned_digits(t: Seq<u8>) -> Seq<u8> {
    if t.len() > 0 && t[0] == 43 {
        t.drop_first()
    } else {
        t
    }
}

/// What a token parses to as an unsigned count: digits after an optional
/// plus sign, whose value fits the machine word.
pub open spec fn parsed_usize(t: Seq<u8>) -> Option<usize> {
    let d = unsigned_digits(t);
    if is_digits(d) && uint_val(d) <= usize::MAX {
        Some(uint_val(d) as usize)
    } else {
        None
    }
}

/// What a token parses to as a signed literal: digits after an optional plus
/// or minus sign, whose value is representable.
pub open spec fn parsed_isize(t: Seq<u8>) -> Option<isize> {
    if t.len() > 0 && t[0] == 45 {
        let d = t.drop_first();
        if is_digits(d) && uint_val(d) <= isize::MAX as nat + 1 {
            Some((-(uint_val(d) as int)) as isize)
        } else {
            None
        }
    } else {
        let d = unsigned_digits(t);
        if is_digits(d) && uint_val(d) <= isize::MAX as nat {
            Some(uint_val(d) as usize as isize)
        } else {
            None
        }
    }
}

/// The length of the maximal non-whitespace prefix.
pub open spec fn token_len(s: Seq<u8>) -> nat
    decreases s.len(),
{
    if s.len() == 0 || is_space(s[0]) {
        0
    } else {
        1 + token_len(s.drop_first())
    }
}

/// The maximal non-whitespace prefix is non-empty exactly when the first byte
/// is not whitespace, and never longer than the input.
pub proof fn lemma_token_len_bounds(s: Seq<u8>)
    ensures
        token_len(s) <= s.len(),
        s.len() > 0 && !is_space(s[0]) ==> 1 <= token_len(s),
        forall|i: int| 0 <= i < token_len(s) ==> !is_space(#[trigger] s[i]),
        token_len(s) < s.len() ==> is_space(s[token_len(s) as int]),
    decreases s.len(),
{
    if s.len() > 0 && !is_space(s[0]) {
        lemma_token_len_bounds(s.drop_first());
        assert forall|i: int| 0 <= i < token_len(s) implies !is_space(#[trigger] s[i]) by {
            if i > 0 {
                assert(s.drop_first()[i - 1] == s[i]);
            }
        }
        if token_len(s) < s.len() {
            assert(s.drop_first()[token_len(s) - 1] == s[token_len(s) as int]);
        }
    }
}

/// The whitespace-separated tokens of a line.
pub open spec fn tokens_of(s: Seq<u8>) -> Seq<Seq<u8>>
    decreases s.len(),
    via tokens_of_dec
{
    if s.len() == 0 {
        Seq::empty()
    } else if is_space(s[0]) {
        tokens_of(s.drop_first())
    } else {
        seq![s.take(token_len(s) as int)] + tokens_of(s.skip(token_len(s) as int))
    }
}

#[via_fn]
proof fn tokens_of_dec(s: Seq<u8>) {
    if s.len() > 0 && !is_space(s[0]) {
        lemma_token_len_bounds(s);
    }
}

/// The clause a line's tokens spell: every token must parse as a literal, and
/// the zeros, the wire format's terminators, are dropped.
pub open spec fn clause_of_tokens(ts: Seq<Seq<u8>>) -> Option<Seq<isize>>
    decreases ts.len(),
{
    if ts.len() == 0 {
        Some(Seq::empty())
    } else {
        match parsed_isize(ts[0]) {
            None => None,
            Some(v) => match clause_of_tokens(ts.drop_first()) {
                None => None,
                Some(rest) => if v == 0 {
                    Some(rest)
                } else {
                    Some(seq![v] + rest)
                },
            },
        }
    }
}

/// The counts a header line's tokens declare: the third token is the variable
/// count and the fourth the clause count; every token after the second must
/// parse as an unsigned count and at least two such tokens must be there.
pub open spec fn header_counts(ts: Seq<Seq<u8>>) -> Option<(usize, usize)> {
    if ts.len() >= 4 && (forall|i: int| 2 <= i < ts.len() ==> parsed_usize(#[trigger] ts[i]) is Some) {
        Some(
            (uint_val(unsigned_digits(ts[2])) as usize, uint_val(unsigned_digits(ts[3])) as usize),
        )
    } else {
        None
    }
}

/// A longer digit prefix never has a smaller value.
proof fn lemma_uint_val_take_le(t: Seq<u8>, k: int)
    requires
        0 <= k <= t.len(),
    ensures
        uint_val(t.take(k)) <= uint_val(t),
    decreases t.len() - k,
{
    if k == t.len() {
        assert(t.take(k) =~= t);
    } else {
        assert(t.take(k + 1).drop_last() =~= t.take(k));
        assert(t.take(k + 1).last() == t[k]);
        lemma_uint_val_take_le(t, k + 1);
    }
}

/// Where the line that starts at `pos` ends: the index of the next line feed,
/// or the end of the input.
pub open spec fn line_end(s: Seq<u8>, pos: int) -> int
    decreases s.len() - pos,
    when 0 <= pos <= s.len()
{
    if pos >= s.len() {
        s.len() as int
    } else if s[pos] == 10 {
        pos
    } else {
        line_end(s, pos + 1)
    }
}

/// A line ends at or after where it starts, within the input, at a line feed
/// unless at the end of the input, and holds no line feed before that.
pub proof fn lemma_line_end_bounds(s: Seq<u8>, pos: int)
    requires
        0 <= pos <= s.len(),
    ensures
        pos <= line_end(s, pos) <= s.len(),
        line_end(s, pos) < s.len() ==> s[line_end(s, pos)] == 10,
        forall|j: int| pos <= j < line_end(s, pos) ==> s[j] != 10,
    decreases s.len() - pos,
{
    if pos < s.len() && s[pos] != 10 {
        lemma_line_end_bounds(s, pos + 1);
    }
}

/// Where reading continues after the line that starts at `pos`: past the line
/// feed, or at the end of the input.
pub open spec fn next_pos(s: Seq<u8>, pos: int) -> int {
    if line_end(s, pos) < s.len() {
        line_end(s, pos) + 1
    } else {
        s.len() as int
    }
}

/// A line the clause reader skips: a comment, which starts with `c`, or a
/// line of nothing but whitespace.
pub open spec fn is_skippable(line: Seq<u8>) -> bool {
    ||| (line.len() > 0 && line[0] == 99)
    ||| (forall|i: int| 0 <= i < line.len() ==> is_space(#[trigger] line[i]))
}

/// The line the header scan stops at: the first line at or after `pos` that
/// starts with `p`, as its start position and the position after it.
pub open spec fn header_pos(s: Seq<u8>, pos: int) -> Option<(int, int)>
    decreases s.len() - pos,
    when 0 <= pos <= s.len()
    via header_pos_dec
{
    if pos >= s.len() {
        None
    } else {
        let e = line_end(s, pos);
        if e > pos && s[pos] == 112 {
            Some((pos, next_pos(s, pos)))
        } else {
            header_pos(s, next_pos(s, pos))
        }
    }
}

#[via_fn]
proof fn header_pos_dec(s: Seq<u8>, pos: int) {
    if 0 <= pos < s.len() {
        lemma_line_end_bounds(s, pos);
    }
}

/// The first line at or after `pos` that the clause reader does not skip, as
/// its start position and the position after it.
pub open spec fn next_data_line(s: Seq<u8>, pos: int) -> Option<(int, int)>
    decreases s.len() - pos,
    when 0 <= pos <= s.len()
    via next_data_line_dec
{
    if pos >= s.len() {
        None
    } else {
        let e = line_end(s, pos);
        if !is_skippable(s.subrange(pos, e)) {
            Some((pos, next_pos(s, pos)))
        } else {
            next_data_line(s, next_pos(s, pos))
        }
    }
}

#[via_fn]
proof fn next_data_line_dec(s: Seq<u8>, pos: int) {
    if 0 <= pos < s.len() {
        lemma_line_end_bounds(s, pos);
    }
}

/// Whether a byte is one of the format's separators.
fn is_space_byte(b: u8) -> (r: bool)
    ensures
        r == is_space(b),
{
    b == 32 || b == 9 || b == 10 || b == 11 || b == 12 || b == 13
}

/// A reader of the input format. It holds the whole input, the reading
/// position, and the two counts the header declared; clauses are handed out
/// one line at a time.
pub struct Parser {
    content: Vec<u8>,
    pos: usize,
    variables: usize,
    clauses: usize,
}

impl Parser {
    /// The whole input.
    pub closed spec fn contents(self) -> Seq<u8> {
        self.content@
    }

    /// Where the next line starts.
    pub closed spec fn position(self) -> int {
        self.pos as int
    }

    /// The variable count the header declared.
    pub closed spec fn declared_variables(self) -> usize {
        self.variables
    }

    /// The clause count the header declared.
    pub closed spec fn declared_clauses(self) -> usize {
        self.clauses
    }

    /// The reader's invariant: the position stays within the input.
    pub open spec fn wf(self) -> bool {
        0 <= self.position() <= self.contents().len()
    }

    /// Open a reader on a whole input: skip lines until one starts with `p`,
    /// and read the declared variable and clause counts from its third and
    /// fourth tokens. Nothing is handed out when no header line is found or
    /// when its counts do not parse.
    pub fn new(content: Vec<u8>) -> (r: Option<Parser>)
        ensures
            match header_pos(content@, 0) {
                None => r is None,
                Some((hs, np)) => {
                    let line = content@.subrange(hs, line_end(content@, hs));
                    match header_counts(tokens_of(line)) {
                        None => r is None,
                        Some(counts) => match r {
                            None => false,
                            Some(p) => {
                                &&& p.wf()
                                &&& p.contents() == content@
                                &&& p.position() == np
                                &&& p.declared_variables() == counts.0
                                &&& p.declared_clauses() == counts.1
                            },
                        },
                    }
                },
            },
    {
        let mut pos: usize = 0;
        while pos < content.len()
            invariant
                pos <= content@.len(),
                header_pos(content@, 0) == header_pos(content@, pos as int),
            decreases content@.len() - pos,
        {
            proof {
                lemma_line_end_bounds(content@, pos as int);
            }
            let e = find_line_end(&content, pos);
            let np = if e < content.len() {
                e + 1
            } else {
                e
            };
            proof {
                assert(np == next_pos(content@, pos as int));
            }
            if content[pos] == 112 && e > pos {
                proof {
                    assert(header_pos(content@, pos as int) == Some((pos as int, np as int)));
                }
                let line = extract_line(&content, pos, e);
                match parse_header_line(&line) {
                    None => {
                        return None;
                    },
                    Some((vars, cls)) => {
                        return Some(
                            Parser { content, pos: np, variables: vars, clauses: cls },
                        );
                    },
                }
            }
            proof {
                assert(header_pos(content@, pos as int) == header_pos(content@, np as int));
            }
            pos = np;
        }
        None
    }

    /// Hand out the next clause: skip comment and blank lines, then parse the
    /// next line as a clause. Nothing is handed out at the end of the input
    /// or when a token of the line is not a literal.
    pub fn parse_next_line(&mut self) -> (r: Option<InputClause>)
        requires
            old(self).wf(),
        ensures
            final(self).wf(),
            final(self).contents() == old(self).contents(),
            final(self).declared_variables() == old(self).declared_variables(),
            final(self).declared_clauses() == old(self).declared_clauses(),
            match next_data_line(old(self).contents(), old(self).position()) {
                None => r is None && final(self).position() == old(self).contents().len(),
                Some((ls, np)) => {
                    let line = old(self).contents().subrange(
                        ls,
                        line_end(old(self).contents(), ls),
                    );
                    &&& final(self).position() == np
                    &&& match r {
                        None => clause_of_tokens(tokens_of(line)) is None,
                        Some(v) => clause_of_tokens(tokens_of(line)) == Some(v@),
                    }
                },
            },
    {
        while self.pos < self.content.len()
            invariant
                self.wf(),
                self.contents() == old(self).contents(),
                self.declared_variables() == old(self).declared_variables(),
                self.declared_clauses() == old(self).declared_clauses(),
                next_data_line(old(self).contents(), old(self).position()) == next_data_line(
                    self.contents(),
                    self.position(),
                ),
            decreases self.content@.len() - self.pos,
        {
            let pos = self.pos;
            proof {
                lemma_line_end_bounds(self.content@, pos as int);
            }
            let e = find_line_end(&self.content, pos);
            let np = if e < self.content.len() {
                e + 1
            } else {
                e
            };
            proof {
                assert(np == next_pos(self.content@, pos as int));
            }
            let line = extract_line(&self.content, pos, e);
            self.pos = np;
            if !is_skippable_line(&line) {
                proof {
                    assert(next_data_line(self.content@, pos as int) == Some(
                        (pos as int, np as int),
                    ));
                }
                return parse_clause_line(&line);
            }
            proof {
                assert(next_data_line(self.content@, pos as int) == next_data_line(
                    self.content@,
                    np as int,
                ));
            }
        }
        None
    }

    /// The variable count the header declared.
    pub fn get_variables(&self) -> (r: usize)
        ensures
            r == self.declared_variables(),
    {
        self.variables
    }

    /// The clause count the header declared.
    pub fn get_clauses(&self) -> (r: usize)
        ensures
            r == self.declared_clauses(),
    {
        self.clauses
    }
}

/// Parse the bytes `from..to` of a line as a decimal magnitude no greater
/// than `limit`, as the digits after any sign of a literal or count token.
fn parse_magnitude(line: &Vec<u8>, from: usize, to: usize, limit: usize) -> (r: Option<usize>)
    requires
        from <= to <= line@.len(),
        9 <= limit,
    ensures
        ({
            let d = line@.subrange(from as int, to as int);
            match r {
                Some(n) => is_digits(d) && uint_val(d) == n && n <= limit,
                None => !(is_digits(d) && uint_val(d) <= limit),
            }
        }),
{
    let ghost d = line@.subrange(from as int, to as int);
    if from == to {
        return None;
    }
    let mut acc: usize = 0;
    let mut j = from;
    while j < to
        invariant
            from <= j <= to <= line@.len(),
            9 <= limit,
            d == line@.subrange(from as int, to as int),
            d.len() == to - from,
            forall|i: int| 0 <= i < j - from ==> is_digit(#[trigger] d[i]),
            acc == uint_val(d.take(j - from)),
            acc <= limit,
        decreases to - j,
    {
        let b = line[j];
        proof {
            assert(d[j - from] == line@[j as int]);
        }
        if b < 48 || b > 57 {
            return None;
        }
        let dig = (b - 48) as usize;
        proof {
            assert(d.take(j - from + 1).drop_last() =~= d.take(j - from));
            assert(d.take(j - from + 1).last() == d[j - from]);
            assert(uint_val(d.take(j - from + 1)) == acc * 10 + dig);
        }
        if acc > (limit - dig) / 10 {
            proof {
                assert(acc * 10 + dig > limit) by (nonlinear_arith)
                    requires
                        acc > (limit - dig) / 10,
                        0 <= dig <= 9,
                        dig <= limit,
                        0 <= acc,
                ;
                lemma_uint_val_take_le(d, j - from + 1);
            }
            return None;
        }
        proof {
            assert(acc * 10 + dig <= limit) by (nonlinear_arith)
                requires
                    acc <= (limit - dig) / 10,
                    0 <= dig <= 9,
                    dig <= limit,
                    0 <= acc,
            ;
        }
        acc = acc * 10 + dig;
        j = j + 1;
    }
    proof {
        assert(d.take(to - from) =~= d);
    }
    Some(acc)
}

/// Parse the bytes `from..to` of a line as a signed literal, as the format's
/// integer tokens are read: an optional plus or minus sign, then digits, and
/// the value must be representable.
fn parse_isize_token(line: &Vec<u8>, from: usize, to: usize) -> (r: Option<isize>)
    requires
        from <= to <= line@.len(),
    ensures
        r == parsed_isize(line@.subrange(from as int, to as int)),
{
    let ghost t = line@.subrange(from as int, to as int);
    if from == to {
        return None;
    }
    let first = line[from];
    proof {
        assert(t[0] == first);
    }
    if first == 45 {
        proof {
            assert(t.drop_first() =~= line@.subrange(from as int + 1, to as int));
        }
        let lim = isize::MAX as usize + 1;
        match parse_magnitude(line, from + 1, to, lim) {
            None => None,
            Some(n) => {
                if n == lim {
                    Some(isize::MIN)
                } else {
                    Some(-(n as isize))
                }
            },
        }
    } else if first == 43 {
        proof {
            assert(unsigned_digits(t) =~= line@.subrange(from as int + 1, to as int));
        }
        match parse_magnitude(line, from + 1, to, isize::MAX as usize) {
            None => None,
            Some(n) => Some(n as isize),
        }
    } else {
        proof {
            assert(unsigned_digits(t) =~= t);
        }
        match parse_magnitude(line, from, to, isize::MAX as usize) {
            None => None,
            Some(n) => Some(n as isize),
        }
    }
}

/// The length of the token that starts at `from`: the index of the next
/// whitespace byte, relative to `from`.
fn token_run(line: &Vec<u8>, from: usize) -> (t: usize)
    requires
        from <= line@.len(),
    ensures
        t == token_len(line@.skip(from as int)),
        from + t <= line@.len(),
{
    let ghost suf = line@.skip(from as int);
    let mut cur = from;
    while cur < line.len()
        invariant
            from <= cur <= line@.len(),
            suf == line@.skip(from as int),
            forall|i: int| 0 <= i < cur - from ==> !is_space(#[trigger] suf[i]),
        ensures
            from <= cur <= line@.len(),
            forall|i: int| 0 <= i < cur - from ==> !is_space(#[trigger] suf[i]),
            cur < line@.len() ==> is_space(suf[cur - from]),
        decreases line@.len() - cur,
    {
        let b = line[cur];
        proof {
            assert(suf[cur - from] == line@[cur as int]);
        }
        if is_space_byte(b) {
            break;
        }
        cur = cur + 1;
    }
    proof {
        lemma_token_len_exact(suf, cur - from);
    }
    cur - from
}

/// The maximal non-whitespace prefix ends exactly at the first whitespace
/// byte, or at the end of the input.
proof fn lemma_token_len_exact(s: Seq<u8>, t: int)
    requires
        0 <= t <= s.len(),
        forall|i: int| 0 <= i < t ==> !is_space(#[trigger] s[i]),
        t < s.len() ==> is_space(s[t]),
    ensures
        token_len(s) == t,
    decreases s.len(),
{
    if t == 0 {
    } else {
        let rest = s.drop_first();
        assert forall|i: int| 0 <= i < t - 1 implies !is_space(#[trigger] rest[i]) by {
            assert(rest[i] == s[i + 1]);
        }
        if t - 1 < rest.len() {
            assert(rest[t - 1] == s[t]);
        }
        lemma_token_len_exact(rest, t - 1);
    }
}

/// An owned copy of the bytes `start..end` of the input.
fn extract_line(content: &Vec<u8>, start: usize, end: usize) -> (line: Vec<u8>)
    requires
        start <= end <= content@.len(),
    ensures
        line@ == content@.subrange(start as int, end as int),
{
    let mut line: Vec<u8> = Vec::new();
    let mut i = start;
    while i < end
        invariant
            start <= i <= end <= content@.len(),
            line@ == content@.subrange(start as int, i as int),
        decreases end - i,
    {
        line.push(content[i]);
        proof {
            assert(content@.subrange(start as int, i as int).push(content@[i as int])
                =~= content@.subrange(start as int, i as int + 1));
        }
        i = i + 1;
    }
    line
}

/// The index where the line that starts at `pos` ends.
fn find_line_end(content: &Vec<u8>, pos: usize) -> (e: usize)
    requires
        pos <= content@.len(),
    ensures
        e == line_end(content@, pos as int),
        pos <= e <= content@.len(),
{
    proof {
        lemma_line_end_bounds(content@, pos as int);
    }
    let mut cur = pos;
    while cur < content.len()
        invariant
            pos <= cur <= content@.len(),
            line_end(content@, pos as int) == line_end(content@, cur as int),
        decreases content@.len() - cur,
    {
        if content[cur] == 10 {
            proof {
                assert(line_end(content@, cur as int) == cur);
            }
            return cur;
        }
        proof {
            assert(line_end(content@, cur as int) == line_end(content@, cur as int + 1));
        }
        cur = cur + 1;
    }
    cur
}

/// Whether the clause reader skips a line.
fn is_skippable_line(line: &Vec<u8>) -> (r: bool)
    ensures
        r == is_skippable(line@),
{
    if line.len() > 0 {
        if line[0] == 99 {
            return true;
        }
    }
    let mut i: usize = 0;
    while i < line.len()
        invariant
            i <= line@.len(),
            !(line@.len() > 0 && line@[0] == 99),
            forall|j: int| 0 <= j < i ==> is_space(#[trigger] line@[j]),
        decreases line@.len() - i,
    {
        if !is_space_byte(line[i]) {
            proof {
                assert(!is_space(line@[i as int]));
            }
            return false;
        }
        i = i + 1;
    }
    true
}

/// Parse one line as a clause, as the format's clause lines are read: every
/// whitespace-separated token must be a signed literal, and zeros are
/// dropped.
fn parse_clause_line(line: &Vec<u8>) -> (r: Option<InputClause>)
    ensures
        match r {
            Some(v) => clause_of_tokens(tokens_of(line@)) == Some(v@),
            None => clause_of_tokens(tokens_of(line@)) is None,
        },
{
    let mut acc: Vec<isize> = Vec::new();
    let mut cur: usize = 0;
    proof {
        assert(line@.skip(0) =~= line@);
        if clause_of_tokens(tokens_of(line@)) is Some {
            let rest = clause_of_tokens(tokens_of(line@))->0;
            assert(acc@ + rest =~= rest);
        }
    }
    while cur < line.len()
        invariant
            cur <= line@.len(),
            ({
                let full = clause_of_tokens(tokens_of(line@));
                match clause_of_tokens(tokens_of(line@.skip(cur as int))) {
                    None => full is None,
                    Some(rest) => full == Some(acc@ + rest),
                }
            }),
        decreases line@.len() - cur,
    {
        let b = line[cur];
        proof {
            assert(line@.skip(cur as int)[0] == b);
        }
        if is_space_byte(b) {
            proof {
                assert(line@.skip(cur as int).drop_first() =~= line@.skip(cur as int + 1));
            }
            cur = cur + 1;
        } else {
            let tl = token_run(line, cur);
            let ghost suf = line@.skip(cur as int);
            let ghost ts = tokens_of(suf);
            proof {
                lemma_token_len_bounds(suf);
                assert(suf.take(tl as int) =~= line@.subrange(cur as int, cur as int + tl as int));
                assert(suf.skip(tl as int) =~= line@.skip(cur as int + tl as int));
                assert(ts == seq![suf.take(tl as int)] + tokens_of(suf.skip(tl as int)));
                assert(ts[0] == suf.take(tl as int));
                assert(ts.drop_first() =~= tokens_of(line@.skip(cur as int + tl as int)));
            }
            match parse_isize_token(line, cur, cur + tl) {
                None => {
                    return None;
                },
                Some(v) => {
                    let ghost acc_pre = acc@;
                    if v != 0 {
                        acc.push(v);
                        proof {
                            assert(acc@ =~= acc_pre + seq![v]);
                        }
                    }
                    proof {
                        if clause_of_tokens(tokens_of(line@.skip(cur as int + tl as int))) is Some {
                            let rest = clause_of_tokens(
                                tokens_of(line@.skip(cur as int + tl as int)),
                            )->0;
                            if v != 0 {
                                assert(acc_pre + (seq![v] + rest) =~= acc@ + rest);
                            }
                        }
                    }
                    cur = cur + tl;
                },
            }
        }
    }
    proof {
        assert(line@.skip(line@.len() as int) =~= Seq::<u8>::empty());
        assert(acc@ + Seq::<isize>::empty() =~= acc@);
    }
    Some(acc)
}

/// Parse one line as the header, as the format's header line is read: the
/// third and fourth whitespace-separated tokens are the declared variable and
/// clause counts, and every token from the third on must be an unsigned
/// count.
fn parse_header_line(line: &Vec<u8>) -> (r: Option<(usize, usize)>)
    ensures
        r == header_counts(tokens_of(line@)),
{
    let ghost full = tokens_of(line@);
    let ghost tseen: Seq<Seq<u8>> = Seq::empty();
    let mut vars: usize = 0;
    let mut cls: usize = 0;
    let mut ti: usize = 0;
    let mut cur: usize = 0;
    proof {
        assert(line@.skip(0) =~= line@);
        assert(Seq::<Seq<u8>>::empty() + full =~= full);
    }
    let ghost mut tseen = tseen;
    while cur < line.len()
        invariant
            cur <= line@.len(),
            ti == tseen.len(),
            full == tokens_of(line@),
            full == tseen + tokens_of(line@.skip(cur as int)),
            forall|i: int| 2 <= i < tseen.len() ==> parsed_usize(#[trigger] tseen[i]) is Some,
            ti >= 3 ==> parsed_usize(tseen[2]) == Some(vars),
            ti >= 4 ==> parsed_usize(tseen[3]) == Some(cls),
            ti <= cur,
        decreases line@.len() - cur,
    {
        let b = line[cur];
        proof {
            assert(line@.skip(cur as int)[0] == b);
        }
        if is_space_byte(b) {
            proof {
                assert(line@.skip(cur as int).drop_first() =~= line@.skip(cur as int + 1));
            }
            cur = cur + 1;
        } else {
            let tl = token_run(line, cur);
            let ghost suf = line@.skip(cur as int);
            let ghost tok = suf.take(tl as int);
            proof {
                lemma_token_len_bounds(suf);
                assert(tok =~= line@.subrange(cur as int, cur as int + tl as int));
                assert(suf.skip(tl as int) =~= line@.skip(cur as int + tl as int));
                assert(tokens_of(suf) == seq![tok] + tokens_of(suf.skip(tl as int)));
                assert(full =~= (tseen + seq![tok]) + tokens_of(line@.skip(cur as int + tl as int)));
                assert((tseen + seq![tok])[ti as int] == tok);
                assert(full[ti as int] == tok);
                assert(full.len() >= ti + 1);
            }
            if ti >= 2 {
                match parse_usize_token(line, cur, cur + tl) {
                    None => {
                        proof {
                            assert(parsed_usize(full[ti as int]) is None);
                            assert(header_counts(full) is None);
                        }
                        return None;
                    },
                    Some(n) => {
                        if ti == 2 {
                            vars = n;
                        }
                        if ti == 3 {
                            cls = n;
                        }
                    },
                }
            }
            proof {
                tseen = tseen.push(tok);
                assert(tseen =~= tseen.drop_last() + seq![tok]);
                assert forall|i: int| 2 <= i < tseen.len() implies parsed_usize(
                    #[trigger] tseen[i],
                ) is Some by {
                    if i < tseen.len() - 1 {
                        assert(tseen[i] == tseen.drop_last()[i]);
                    }
                }
            }
            ti = ti + 1;
            cur = cur + tl;
        }
    }
    proof {
        assert(line@.skip(line@.len() as int) =~= Seq::<u8>::empty());
        assert(tseen + Seq::<Seq<u8>>::empty() =~= tseen);
        assert(full == tseen);
    }
    if ti >= 4 {
        proof {
            assert(header_counts(full) == Some((vars, cls)));
        }
        Some((vars, cls))
    } else {
        proof {
            assert(header_counts(full) is None);
        }
        None
    }
}

/// Parse the bytes `from..to` of a line as an unsigned count, as the header's
/// count tokens are read.
fn parse_usize_token(line: &Vec<u8>, from: usize, to: usize) -> (r: Option<usize>)
    requires
        from <= to <= line@.len(),
    ensures
        r == parsed_usize(line@.subrange(from as int, to as int)),
{
    let ghost t = line@.subrange(from as int, to as int);
    if from == to {
        return None;
    }
    let first = line[from];
    proof {
        assert(t[0] == first);
    }
    if first == 43 {
        proof {
            assert(unsigned_digits(t) =~= line@.subrange(from as int + 1, to as int));
        }
        parse_magnitude(line, from + 1, to, usize::MAX)
    } else {
        proof {
            assert(unsigned_digits(t) =~= t);
        }
        parse_magnitude(line, from, to, usize::MAX)
    }
}

} // verus!
