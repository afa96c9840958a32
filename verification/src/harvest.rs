//! The seed -> puzzle harvest fixture format. A fixture is a sequence of records
//! separated by blank lines; lines starting with `#` are ignored. A record is one
//! spec plus the seed -> puzzle pairs harvested with it:
//!
//! ```text
//! force xy-wing            # one or more; NAME[:COUNT]
//! toolbox train            # train | drill | full
//! window 100000 2000       # optional: seeds [base, base+span) were all tried
//! hit 100003 ....5.14...   # a yielder inside the window
//! sample 146012 ...6...    # a known yielder, positive check only
//! ```

use vstd::prelude::*;
use crate::cli::{Toolbox, build_spec, spec_label, parse_force, force_parse, toolbox_of, toolbox_token, label_of, force_kinds,
    last_count, toolbox_status, debug_str, debug_quoted, lemma_first_kind, has_colon, colon_pos, first_colon};
use crate::kinds::{NUM, name, kind_name, lemma_kind_names};
use crate::spec::Spec;
use crate::text::{
    trim, words, split_nl, text_lines, lemma_split_nl_len, trim_chars, words_of, str_eq, push_str, push_char, push_dec, dec,
    parse_nat, parse_bounded, is_space_spec, is_digit, lemma_words_single, lemma_words_sep, lemma_dec_reads_back, lines_text,
    lemma_lines_concat, lemma_split_lines, lemma_trim_id,
};

verus! {

/// A record as plain values: the forces, the toolbox, the window, the hits and
/// the samples (each a seed with its puzzle line).
pub type RecordView = (Seq<(usize, u16)>, Toolbox, Option<(u64, u64)>, Seq<(u64, Seq<char>)>, Seq<(u64, Seq<char>)>);

/// One spec's harvested seed -> puzzle mapping.
pub struct Record {
    /// The forced kinds with counts, in force order.
    pub forces: Vec<(usize, u16)>,
    /// The toolbox surrounding the forced kinds.
    pub toolbox: Toolbox,
    /// `Some((base, span))`: the seeds `[base, base + span)` were all tried and
    /// `hits` holds every yielder among them. `None`: positive checks only.
    pub window: Option<(u64, u64)>,
    /// Yielders inside the window.
    pub hits: Vec<(u64, String)>,
    /// Further known yielders, checked positively only.
    pub samples: Vec<(u64, String)>,
}

/// Seed/puzzle entries as plain values.
pub open spec fn entries_view(v: Seq<(u64, String)>) -> Seq<(u64, Seq<char>)> {
    v.map_values(|e: (u64, String)| (e.0, e.1@))
}

impl View for Record {
    type V = RecordView;

    open spec fn view(&self) -> RecordView {
        (self.forces@, self.toolbox, self.window, entries_view(self.hits@), entries_view(self.samples@))
    }
}

/// The canonical token of a force: the kind name, then `:` and the count when
/// the count is not 1.
pub open spec fn force_token(f: (usize, u16)) -> Seq<char> {
    if f.1 == 1 {
        kind_name(f.0 as int)
    } else {
        kind_name(f.0 as int) + ":"@ + dec(f.1 as nat)
    }
}

/// The `force` lines of a force list.
pub open spec fn force_lines(forces: Seq<(usize, u16)>) -> Seq<char>
    decreases forces.len(),
{
    if forces.len() == 0 {
        Seq::empty()
    } else {
        force_lines(forces.drop_last()) + "force "@ + force_token(forces.last()) + "\n"@
    }
}

/// The `key seed puzzle` lines of entries.
pub open spec fn entry_lines(key: Seq<char>, es: Seq<(u64, Seq<char>)>) -> Seq<char>
    decreases es.len(),
{
    if es.len() == 0 {
        Seq::empty()
    } else {
        entry_lines(key, es.drop_last()) + key + " "@ + dec(es.last().0 as nat) + " "@ + es.last().1 + "\n"@
    }
}

/// The `window` line, if any.
pub open spec fn window_line(w: Option<(u64, u64)>) -> Seq<char> {
    match w {
        Some((base, span)) => "window "@ + dec(base as nat) + " "@ + dec(span as nat) + "\n"@,
        None => Seq::empty(),
    }
}

/// The text of a record's block: its force lines, its toolbox line, its window
/// line, its hit lines and its sample lines, each ending in a line feed.
pub open spec fn block_text(r: RecordView) -> Seq<char> {
    force_lines(r.0) + "toolbox "@ + toolbox_token(r.1) + "\n"@ + window_line(r.2) + entry_lines("hit"@, r.3) + entry_lines(
        "sample"@,
        r.4,
    )
}

/// The decimal number a token spells, if it fits 64 bits.
pub open spec fn u64_of(tok: Seq<char>) -> Option<u64> {
    match parse_nat(tok) {
        Some(v) => if v <= u64::MAX {
            Some(v as u64)
        } else {
            None
        },
        None => None,
    }
}

/// Word `i` of `w`, if there is one.
pub open spec fn word(w: Seq<Seq<char>>, i: int) -> Option<Seq<char>> {
    if 0 <= i < w.len() {
        Some(w[i])
    } else {
        None
    }
}

/// The number word `i` of `w` spells.
pub open spec fn word_u64(w: Seq<Seq<char>>, i: int) -> Option<u64> {
    match word(w, i) {
        Some(t) => u64_of(t),
        None => None,
    }
}

/// The state a block starts from.
pub open spec fn empty_block() -> RecordView {
    (Seq::empty(), Toolbox::Train, None, Seq::empty(), Seq::empty())
}

/// One content line applied to a block's state: the directive its first word
/// names, read from the words after it; or the error the line raises.
pub open spec fn block_step(st: RecordView, line: Seq<char>) -> Result<RecordView, Seq<char>> {
    let w = words(line);
    let key = if w.len() > 0 {
        w[0]
    } else {
        Seq::empty()
    };
    if key == "force"@ {
        match word(w, 1) {
            None => Err("'force' needs a NAME[:COUNT]"@),
            Some(tok) => match force_parse(tok) {
                Ok(p) => Ok((st.0.push(p), st.1, st.2, st.3, st.4)),
                Err(m) => Err(m),
            },
        }
    } else if key == "toolbox"@ {
        Ok((st.0, toolbox_of(word(w, 1)), st.2, st.3, st.4))
    } else if key == "window"@ {
        match word_u64(w, 1) {
            None => Err("bad 'window' base"@),
            Some(base) => match word_u64(w, 2) {
                None => Err("bad 'window' span"@),
                Some(span) => Ok((st.0, st.1, Some((base, span)), st.3, st.4)),
            },
        }
    } else if key == "hit"@ || key == "sample"@ {
        match word_u64(w, 1) {
            None => Err("bad seed"@),
            Some(seed) => match word(w, 2) {
                None => Err("missing puzzle"@),
                Some(p) => if key == "hit"@ {
                    Ok((st.0, st.1, st.2, st.3.push((seed, p)), st.4))
                } else {
                    Ok((st.0, st.1, st.2, st.3, st.4.push((seed, p))))
                },
            },
        }
    } else {
        Err("unknown directive "@ + debug_quoted(key))
    }
}

/// A block's lines applied in order; the first error stops it.
pub open spec fn block_fold(lines: Seq<Seq<char>>) -> Result<RecordView, Seq<char>>
    decreases lines.len(),
{
    if lines.len() == 0 {
        Ok(empty_block())
    } else {
        match block_fold(lines.drop_last()) {
            Ok(st) => block_step(st, lines.last()),
            Err(e) => Err(e),
        }
    }
}

/// The record a block's lines describe; none when no line forces a kind.
pub open spec fn block_of(lines: Seq<Seq<char>>) -> Result<Option<RecordView>, Seq<char>> {
    match block_fold(lines) {
        Ok(st) => if st.0.len() == 0 {
            Ok(None)
        } else {
            Ok(Some(st))
        },
        Err(e) => Err(e),
    }
}

/// One trimmed line applied to the records read so far and the open block: a
/// comment is skipped, a blank line closes the block, any other line joins it.
pub open spec fn records_step(st: (Seq<RecordView>, Seq<Seq<char>>), line: Seq<char>) -> Result<
    (Seq<RecordView>, Seq<Seq<char>>),
    Seq<char>,
> {
    if line.len() > 0 && line[0] == '#' {
        Ok(st)
    } else if line.len() == 0 {
        match block_of(st.1) {
            Err(e) => Err(e),
            Ok(None) => Ok((st.0, Seq::empty())),
            Ok(Some(r)) => Ok((st.0.push(r), Seq::empty())),
        }
    } else {
        Ok((st.0, st.1.push(line)))
    }
}

/// Trimmed lines applied in order; the first error stops it.
pub open spec fn records_fold(lines: Seq<Seq<char>>) -> Result<(Seq<RecordView>, Seq<Seq<char>>), Seq<char>>
    decreases lines.len(),
{
    if lines.len() == 0 {
        Ok((Seq::empty(), Seq::empty()))
    } else {
        match records_fold(lines.drop_last()) {
            Ok(st) => records_step(st, lines.last()),
            Err(e) => Err(e),
        }
    }
}

/// Each line trimmed.
pub open spec fn trims(lines: Seq<Seq<char>>) -> Seq<Seq<char>> {
    lines.map_values(|l: Seq<char>| trim(l))
}

/// The records of a fixture text, or the first error a line raises.
pub open spec fn records_of(text: Seq<char>) -> Result<Seq<RecordView>, Seq<char>> {
    match records_fold(trims(text_lines(text))) {
        Err(e) => Err(e),
        Ok((recs, cur)) => match block_of(cur) {
            Err(e) => Err(e),
            Ok(None) => Ok(recs),
            Ok(Some(r)) => Ok(recs.push(r)),
        },
    }
}

/// Records as plain values.
pub open spec fn records_view(v: Seq<Record>) -> Seq<RecordView> {
    v.map_values(|r: Record| r@)
}

/// Lines as plain values.
pub open spec fn lines_view(v: Seq<Vec<char>>) -> Seq<Seq<char>> {
    v.map_values(|l: Vec<char>| l@)
}

/// An owned copy of `s`.
fn owned(s: &str) -> (r: String)
    ensures
        r@ == s@,
{
    String::from_str(s)
}

impl Record {
    /// The spec this record pins.
    pub fn spec(&self) -> (s: Spec)
        requires
            forall|i: int| 0 <= i < self.forces@.len() ==> #[trigger] self.forces@[i].0 < NUM,
        ensures
            forall|k: int| 0 <= k < 16 ==> #[trigger] s.status_of(k) == toolbox_status(self.forces@, self.toolbox, k),
            forall|k: int| 0 <= k < 16 && force_kinds(self.forces@).contains(k as usize) ==> #[trigger] s.need_of(k)
                == last_count(self.forces@, k),
    {
        build_spec(self.forces.as_slice(), self.toolbox)
    }

    /// Human-readable label, e.g. `swordfish + naked-triple`.
    pub fn label(&self) -> (s: String)
        requires
            forall|i: int| 0 <= i < self.forces@.len() ==> #[trigger] self.forces@[i].0 < NUM,
        ensures
            s@ == label_of(self.forces@),
    {
        spec_label(self.forces.as_slice())
    }

    /// The canonical `NAME[:COUNT]` token of each force, the form a `force` line
    /// reads back.
    pub fn force_tokens(&self) -> (v: Vec<String>)
        requires
            forall|i: int| 0 <= i < self.forces@.len() ==> #[trigger] self.forces@[i].0 < NUM,
        ensures
            v@.len() == self.forces@.len(),
            forall|i: int| 0 <= i < v@.len() ==> #[trigger] v@[i]@ == force_token(self.forces@[i]),
    {
        let mut v: Vec<String> = Vec::new();
        let mut i: usize = 0;
        while i < self.forces.len()
            invariant
                0 <= i <= self.forces@.len(),
                forall|q: int| 0 <= q < self.forces@.len() ==> #[trigger] self.forces@[q].0 < NUM,
                v@.len() == i,
                forall|q: int| 0 <= q < i ==> #[trigger] v@[q]@ == force_token(self.forces@[q]),
            decreases self.forces@.len() - i,
        {
            let (k, c) = self.forces[i];
            let t = force_token_of(k, c);
            v.push(t);
            i += 1;
        }
        v
    }

    /// Whether this record reconstructs at least one puzzle.
    pub fn has_positive(&self) -> (r: bool)
        ensures
            r == (self.hits@.len() > 0 || self.samples@.len() > 0),
    {
        self.hits.len() > 0 || self.samples.len() > 0
    }

    /// Append this record's block to `buf` (no trailing blank line).
    #[verifier::rlimit(40)]
    pub fn write_block(&self, buf: &mut String)
        requires
            forall|i: int| 0 <= i < self.forces@.len() ==> #[trigger] self.forces@[i].0 < NUM,
        ensures
            final(buf)@ == old(buf)@ + block_text(self@),
    {
        let toks = self.force_tokens();
        let mut i: usize = 0;
        while i < toks.len()
            invariant
                0 <= i <= toks@.len(),
                toks@.len() == self.forces@.len(),
                forall|q: int| 0 <= q < toks@.len() ==> #[trigger] toks@[q]@ == force_token(self.forces@[q]),
                buf@ == old(buf)@ + force_lines(self.forces@.take(i as int)),
            decreases toks@.len() - i,
        {
            let ghost b0 = buf@;
            push_str(buf, "force ");
            push_str(buf, toks[i].as_str());
            push_str(buf, "\n");
            proof {
                let t1 = self.forces@.take(i + 1);
                assert(t1.drop_last() =~= self.forces@.take(i as int));
                assert(t1.last() == self.forces@[i as int]);
                assert(buf@ =~= old(buf)@ + force_lines(t1));
            }
            i += 1;
        }
        proof {
            assert(self.forces@.take(self.forces@.len() as int) =~= self.forces@);
        }
        let ghost b1 = buf@;
        push_str(buf, "toolbox ");
        push_str(buf, self.toolbox.label_short());
        push_str(buf, "\n");
        match self.window {
            Some((base, span)) => {
                push_str(buf, "window ");
                push_dec(buf, base);
                push_str(buf, " ");
                push_dec(buf, span);
                push_str(buf, "\n");
            },
            None => {},
        }
        proof {
            assert(buf@ =~= b1 + "toolbox "@ + toolbox_token(self.toolbox) + "\n"@ + window_line(self.window));
        }
        push_entries(buf, "hit", &self.hits);
        push_entries(buf, "sample", &self.samples);
        proof {
            assert(buf@ =~= old(buf)@ + block_text(self@));
        }
    }
}

/// The canonical token of force `(k, c)`.
fn force_token_of(k: usize, c: u16) -> (t: String)
    requires
        k < NUM,
    ensures
        t@ == force_token((k, c)),
{
    let mut t = String::new();
    push_str(&mut t, name(k));
    if c != 1 {
        push_str(&mut t, ":");
        push_dec(&mut t, c as u64);
    }
    proof {
        assert(t@ =~= force_token((k, c)));
    }
    t
}

/// Append the `key seed puzzle` lines of `es`.
fn push_entries(buf: &mut String, key: &str, es: &Vec<(u64, String)>)
    ensures
        final(buf)@ == old(buf)@ + entry_lines(key@, entries_view(es@)),
{
    let mut i: usize = 0;
    while i < es.len()
        invariant
            0 <= i <= es@.len(),
            buf@ == old(buf)@ + entry_lines(key@, entries_view(es@.take(i as int))),
        decreases es@.len() - i,
    {
        push_str(buf, key);
        push_str(buf, " ");
        push_dec(buf, es[i].0);
        push_str(buf, " ");
        push_str(buf, es[i].1.as_str());
        push_str(buf, "\n");
        proof {
            let t1 = es@.take(i + 1);
            assert(entries_view(t1).drop_last() =~= entries_view(es@.take(i as int)));
            assert(entries_view(t1).last() == (es@[i as int].0, es@[i as int].1@));
            assert(buf@ =~= old(buf)@ + entry_lines(key@, entries_view(t1)));
        }
        i += 1;
    }
    proof {
        assert(es@.take(es@.len() as int) =~= es@);
    }
}

/// The number a word spells, if it fits 64 bits.
fn word_number(w: &Vec<String>, i: usize) -> (r: Option<u64>)
    ensures
        r == word_u64(w@.map_values(|s: String| s@), i as int),
{
    if i < w.len() {
        parse_bounded(w[i].as_str(), u64::MAX)
    } else {
        None
    }
}

/// Apply one content line to the block being read.
fn block_line(rec: &mut Record, line: &Vec<char>) -> (r: Result<(), String>)
    ensures
        match r {
            Ok(()) => block_step(old(rec)@, line@) == Ok::<RecordView, Seq<char>>(final(rec)@),
            Err(e) => block_step(old(rec)@, line@) == Err::<RecordView, Seq<char>>(e@),
        },
{
    let w = words_of(line);
    let ghost ws = w@.map_values(|s: String| s@);
    let key: &str = if w.len() > 0 {
        w[0].as_str()
    } else {
        ""
    };
    proof {
        reveal_strlit("");
        assert(key@ == if ws.len() > 0 {
            ws[0]
        } else {
            Seq::<char>::empty()
        });
    }
    if str_eq(key, "force") {
        if w.len() < 2 {
            return Err(owned("'force' needs a NAME[:COUNT]"));
        }
        match parse_force(w[1].as_str()) {
            Ok(p) => {
                rec.forces.push(p);
                Ok(())
            },
            Err(m) => Err(m),
        }
    } else if str_eq(key, "toolbox") {
        let arg: Option<&str> = if w.len() >= 2 {
            Some(w[1].as_str())
        } else {
            None
        };
        rec.toolbox = Toolbox::parse(arg);
        Ok(())
    } else if str_eq(key, "window") {
        let base = match word_number(&w, 1) {
            Some(v) => v,
            None => {
                return Err(owned("bad 'window' base"));
            },
        };
        let span = match word_number(&w, 2) {
            Some(v) => v,
            None => {
                return Err(owned("bad 'window' span"));
            },
        };
        rec.window = Some((base, span));
        Ok(())
    } else if str_eq(key, "hit") || str_eq(key, "sample") {
        let seed = match word_number(&w, 1) {
            Some(v) => v,
            None => {
                return Err(owned("bad seed"));
            },
        };
        if w.len() < 3 {
            return Err(owned("missing puzzle"));
        }
        let puzzle = w[2].clone();
        if str_eq(key, "hit") {
            let ghost h0 = rec.hits@;
            rec.hits.push((seed, puzzle));
            proof {
                assert(entries_view(rec.hits@) =~= entries_view(h0).push((seed, ws[2])));
            }
        } else {
            let ghost s0 = rec.samples@;
            rec.samples.push((seed, puzzle));
            proof {
                assert(entries_view(rec.samples@) =~= entries_view(s0).push((seed, ws[2])));
            }
        }
        Ok(())
    } else {
        let mut msg = owned("unknown directive ");
        let q = debug_str(key);
        push_str(&mut msg, q.as_str());
        Err(msg)
    }
}

/// Parse one block's content lines: the record they describe, none when no line
/// forces a kind, or the first error a line raises.
fn parse_block(lines: &Vec<Vec<char>>) -> (r: Result<Option<Record>, String>)
    ensures
        match r {
            Ok(None) => block_of(lines_view(lines@)) == Ok::<Option<RecordView>, Seq<char>>(None),
            Ok(Some(rec)) => block_of(lines_view(lines@)) == Ok::<Option<RecordView>, Seq<char>>(Some(rec@)),
            Err(e) => block_of(lines_view(lines@)) == Err::<Option<RecordView>, Seq<char>>(e@),
        },
{
    let mut rec = Record {
        forces: Vec::new(),
        toolbox: Toolbox::Train,
        window: None,
        hits: Vec::new(),
        samples: Vec::new(),
    };
    proof {
        assert(rec@ =~= empty_block());
    }
    let mut i: usize = 0;
    while i < lines.len()
        invariant
            0 <= i <= lines@.len(),
            block_fold(lines_view(lines@).take(i as int)) == Ok::<RecordView, Seq<char>>(rec@),
        decreases lines@.len() - i,
    {
        proof {
            let t1 = lines_view(lines@).take(i + 1);
            assert(t1.drop_last() =~= lines_view(lines@).take(i as int));
            assert(t1.last() == lines@[i as int]@);
        }
        match block_line(&mut rec, &lines[i]) {
            Ok(()) => {},
            Err(e) => {
                proof {
                    lemma_block_err(lines_view(lines@), i + 1, e@);
                    assert(lines_view(lines@).take(lines@.len() as int) =~= lines_view(lines@));
                }
                return Err(e);
            },
        }
        i += 1;
    }
    proof {
        assert(lines_view(lines@).take(lines@.len() as int) =~= lines_view(lines@));
    }
    if rec.forces.len() == 0 {
        Ok(None)
    } else {
        Ok(Some(rec))
    }
}

/// An error stops the block: it stays the result as more lines follow.
proof fn lemma_block_err(lines: Seq<Seq<char>>, n: int, e: Seq<char>)
    requires
        0 <= n <= lines.len(),
        block_fold(lines.take(n)) == Err::<RecordView, Seq<char>>(e),
    ensures
        block_fold(lines) == Err::<RecordView, Seq<char>>(e),
    decreases lines.len() - n,
{
    if n < lines.len() {
        assert(lines.take(n + 1).drop_last() =~= lines.take(n));
        lemma_block_err(lines, n + 1, e);
    } else {
        assert(lines.take(n) =~= lines);
    }
}

/// Feed one raw line to the records read so far and the open block.
fn feed(records: &mut Vec<Record>, cur: &mut Vec<Vec<char>>, raw: &Vec<char>) -> (r: Result<(), String>)
    ensures
        match r {
            Ok(()) => records_step((records_view(old(records)@), lines_view(old(cur)@)), trim(raw@)) == Ok::<
                (Seq<RecordView>, Seq<Seq<char>>),
                Seq<char>,
            >((records_view(final(records)@), lines_view(final(cur)@))),
            Err(e) => records_step((records_view(old(records)@), lines_view(old(cur)@)), trim(raw@)) == Err::<
                (Seq<RecordView>, Seq<Seq<char>>),
                Seq<char>,
            >(e@),
        },
{
    let line = trim_chars(raw);
    if line.len() > 0 && line[0] == '#' {
        return Ok(());
    }
    if line.len() == 0 {
        match parse_block(cur) {
            Err(e) => {
                return Err(e);
            },
            Ok(None) => {},
            Ok(Some(rec)) => {
                let ghost r0 = records@;
                records.push(rec);
                proof {
                    assert(records_view(records@) =~= records_view(r0).push(rec@));
                }
            },
        }
        *cur = Vec::new();
        proof {
            assert(lines_view(cur@) =~= Seq::<Seq<char>>::empty());
        }
        return Ok(());
    }
    let ghost c0 = cur@;
    cur.push(line);
    proof {
        assert(lines_view(cur@) =~= lines_view(c0).push(trim(raw@)));
    }
    Ok(())
}

/// Parse a whole fixture text into its records, skipping `#` lines and splitting
/// records on blank lines; or the first error a line raises.
pub fn parse_records(text: &str) -> (r: Result<Vec<Record>, String>)
    ensures
        match r {
            Ok(v) => records_of(text@) == Ok::<Seq<RecordView>, Seq<char>>(records_view(v@)),
            Err(e) => records_of(text@) == Err::<Seq<RecordView>, Seq<char>>(e@),
        },
{
    let mut records: Vec<Record> = Vec::new();
    let mut cur: Vec<Vec<char>> = Vec::new();
    let mut line: Vec<char> = Vec::new();
    let mut err: Option<String> = None;
    proof {
        assert(text@.take(0) =~= Seq::<char>::empty());
        assert(split_nl(Seq::<char>::empty()).drop_last() =~= Seq::<Seq<char>>::empty());
        assert(trims(Seq::<Seq<char>>::empty()) =~= Seq::<Seq<char>>::empty());
        assert(records_view(records@) =~= Seq::<RecordView>::empty());
        assert(lines_view(cur@) =~= Seq::<Seq<char>>::empty());
    }
    for c in it: text.chars()
        invariant
            it.seq() == text@,
            0 <= it.index() <= text@.len(),
            split_nl(text@.take(it.index() as int)).len() >= 1,
            line@ == split_nl(text@.take(it.index() as int)).last(),
            match err {
                None => records_fold(trims(split_nl(text@.take(it.index() as int)).drop_last())) == Ok::<
                    (Seq<RecordView>, Seq<Seq<char>>),
                    Seq<char>,
                >((records_view(records@), lines_view(cur@))),
                Some(e) => records_fold(trims(split_nl(text@.take(it.index() as int)).drop_last())) == Err::<
                    (Seq<RecordView>, Seq<Seq<char>>),
                    Seq<char>,
                >(e@),
            },
    {
        let ghost i = it.index();
        let ghost pre = text@.take(i as int);
        let ghost p = split_nl(pre);
        proof {
            assert(text@.take(i + 1).drop_last() =~= pre);
            assert(text@.take(i + 1).last() == c);
            lemma_split_nl_len(pre);
        }
        if c == '\n' {
            proof {
                assert(split_nl(text@.take(i + 1)).drop_last() =~= p);
                assert(trims(p).drop_last() =~= trims(p.drop_last()));
                assert(trims(p).last() == trim(p.last()));
            }
            match err {
                None => {
                    match feed(&mut records, &mut cur, &line) {
                        Ok(()) => {},
                        Err(e) => {
                            err = Some(e);
                        },
                    }
                },
                Some(_) => {},
            }
            line = Vec::new();
        } else {
            proof {
                assert(split_nl(text@.take(i + 1)).drop_last() =~= p.drop_last());
            }
            line.push(c);
        }
    }
    proof {
        assert(text@.take(text@.len() as int) =~= text@);
    }
    let ghost p = split_nl(text@);
    if line.len() > 0 {
        proof {
            assert(text_lines(text@) == p);
            assert(trims(p).drop_last() =~= trims(p.drop_last()));
            assert(trims(p).last() == trim(p.last()));
        }
        match err {
            None => {
                match feed(&mut records, &mut cur, &line) {
                    Ok(()) => {},
                    Err(e) => {
                        err = Some(e);
                    },
                }
            },
            Some(_) => {},
        }
    } else {
        proof {
            assert(text_lines(text@) == p.drop_last());
        }
    }
    match err {
        Some(e) => Err(e),
        None => {
            match parse_block(&cur) {
                Err(e) => Err(e),
                Ok(None) => Ok(records),
                Ok(Some(rec)) => {
                    let ghost r0 = records@;
                    records.push(rec);
                    proof {
                        assert(records_view(records@) =~= records_view(r0).push(rec@));
                    }
                    Ok(records)
                },
            }
        },
    }
}


/// A non-empty run of non-space characters.
pub open spec fn plain_word(p: Seq<char>) -> bool {
    p.len() > 0 && forall|i: int| 0 <= i < p.len() ==> !is_space_spec(#[trigger] p[i])
}

/// A record the block format carries: at least one force, every kind known, and
/// every puzzle a plain word.
pub open spec fn writable(r: RecordView) -> bool {
    &&& r.0.len() > 0
    &&& forall|i: int| 0 <= i < r.0.len() ==> #[trigger] r.0[i].0 < 16
    &&& forall|i: int| 0 <= i < r.3.len() ==> #[trigger] plain_word(r.3[i].1)
    &&& forall|i: int| 0 <= i < r.4.len() ==> #[trigger] plain_word(r.4[i].1)
}

/// The `force` lines, without line feeds.
pub open spec fn force_seq(fs: Seq<(usize, u16)>) -> Seq<Seq<char>> {
    fs.map_values(|f: (usize, u16)| "force "@ + force_token(f))
}

/// The entry lines, without line feeds.
pub open spec fn entry_seq(key: Seq<char>, es: Seq<(u64, Seq<char>)>) -> Seq<Seq<char>> {
    es.map_values(|e: (u64, Seq<char>)| key + " "@ + dec(e.0 as nat) + " "@ + e.1)
}

/// The `window` line, if any, without its line feed.
pub open spec fn window_seq(w: Option<(u64, u64)>) -> Seq<Seq<char>> {
    match w {
        Some((base, span)) => seq!["window "@ + dec(base as nat) + " "@ + dec(span as nat)],
        None => Seq::empty(),
    }
}

/// A block's lines, without line feeds.
pub open spec fn block_lines(r: RecordView) -> Seq<Seq<char>> {
    force_seq(r.0) + seq!["toolbox "@ + toolbox_token(r.1)] + window_seq(r.2) + entry_seq("hit"@, r.3) + entry_seq(
        "sample"@,
        r.4,
    )
}

/// Lines applied in order from state `st`; the first error stops it.
pub open spec fn block_run(st: RecordView, lines: Seq<Seq<char>>) -> Result<RecordView, Seq<char>>
    decreases lines.len(),
{
    if lines.len() == 0 {
        Ok(st)
    } else {
        match block_run(st, lines.drop_last()) {
            Ok(s) => block_step(s, lines.last()),
            Err(e) => Err(e),
        }
    }
}

proof fn lemma_block_run_fold(lines: Seq<Seq<char>>)
    ensures
        block_fold(lines) == block_run(empty_block(), lines),
    decreases lines.len(),
{
    if lines.len() > 0 {
        lemma_block_run_fold(lines.drop_last());
    }
}

proof fn lemma_block_run_concat(st: RecordView, a: Seq<Seq<char>>, b: Seq<Seq<char>>, mid: RecordView)
    requires
        block_run(st, a) == Ok::<RecordView, Seq<char>>(mid),
    ensures
        block_run(st, a + b) == block_run(mid, b),
    decreases b.len(),
{
    if b.len() == 0 {
        assert(a + b =~= a);
    } else {
        lemma_block_run_concat(st, a, b.drop_last(), mid);
        assert((a + b).drop_last() =~= a + b.drop_last());
        assert((a + b).last() == b.last());
    }
}

/// A keyword followed by a space and plain words reads as those words.
proof fn lemma_words3(a: Seq<char>, b: Seq<char>, c: Seq<char>)
    requires
        plain_word(a),
        plain_word(b),
        plain_word(c),
    ensures
        words(a + " "@ + b + " "@ + c) == seq![a, b, c],
        words(a + " "@ + b) == seq![a, b],
{
    reveal_strlit(" ");
    assert(" "@ =~= seq![' ']);
    lemma_words_single(a);
    lemma_words_single(b);
    lemma_words_single(c);
    lemma_words_sep(a, b);
    assert(a + " "@ + b =~= a + seq![' '] + b);
    assert(seq![a] + seq![b] =~= seq![a, b]);
    lemma_words_sep(a + " "@ + b, c);
    assert(a + " "@ + b + " "@ + c =~= (a + " "@ + b) + seq![' '] + c);
    assert(seq![a, b] + seq![c] =~= seq![a, b, c]);
}

proof fn lemma_dec_word(n: nat)
    ensures
        plain_word(dec(n)),
        forall|i: int| 0 <= i < dec(n).len() ==> #[trigger] dec(n)[i] != '\n' && dec(n)[i] != ':',
{
    lemma_dec_reads_back(n);
    assert forall|i: int| 0 <= i < dec(n).len() implies !is_space_spec(#[trigger] dec(n)[i]) && dec(n)[i] != '\n' && dec(n)[i]
        != ':' by {
        assert(is_digit(dec(n)[i]));
    }
}

/// The kind name is a plain word without colons.
proof fn lemma_name_word(k: int)
    requires
        0 <= k < 16,
    ensures
        plain_word(kind_name(k)),
        forall|i: int| 0 <= i < kind_name(k).len() ==> #[trigger] kind_name(k)[i] != ':',
{
    lemma_kind_names(k);
    assert forall|i: int| 0 <= i < kind_name(k).len() implies !is_space_spec(#[trigger] kind_name(k)[i]) by {
        assert('a' <= kind_name(k)[i] <= 'z' || kind_name(k)[i] == '-');
    }
}

/// A force token reads back as its force.
proof fn lemma_force_token(f: (usize, u16))
    requires
        f.0 < 16,
    ensures
        plain_word(force_token(f)),
        force_parse(force_token(f)) == Ok::<(usize, u16), Seq<char>>(f),
{
    let k = f.0 as int;
    let nm = kind_name(k);
    let tok = force_token(f);
    lemma_name_word(k);
    lemma_kind_names(k);
    lemma_first_kind(nm, 0, k);
    if f.1 == 1 {
        assert(!has_colon(tok));
    } else {
        reveal_strlit(":");
        let d = dec(f.1 as nat);
        lemma_dec_word(f.1 as nat);
        lemma_dec_reads_back(f.1 as nat);
        assert(tok == nm + ":"@ + d);
        assert(tok[nm.len() as int] == ':');
        assert(first_colon(tok, nm.len() as int));
        assert(has_colon(tok));
        let cp = colon_pos(tok);
        assert(first_colon(tok, cp));
        if cp < nm.len() {
            assert(tok[cp] == nm[cp]);
        }
        if cp > nm.len() {
            assert(tok[nm.len() as int] != ':');
        }
        assert(cp == nm.len());
        assert(tok.take(cp) =~= nm);
        assert(tok.skip(cp + 1) =~= d);
        assert forall|i: int| 0 <= i < tok.len() implies !is_space_spec(#[trigger] tok[i]) by {
            if i < nm.len() {
                assert(tok[i] == nm[i]);
            } else if i > nm.len() {
                assert(tok[i] == d[i - nm.len() - 1]);
            }
        }
    }
}

proof fn lemma_force_step(st: RecordView, f: (usize, u16))
    requires
        f.0 < 16,
    ensures
        block_step(st, "force "@ + force_token(f)) == Ok::<RecordView, Seq<char>>((st.0.push(f), st.1, st.2, st.3, st.4)),
{
    reveal_strlit("force ");
    reveal_strlit("force");
    reveal_strlit(" ");
    lemma_force_token(f);
    let tok = force_token(f);
    assert(plain_word("force"@));
    lemma_words3("force"@, tok, tok);
    assert("force "@ + tok =~= "force"@ + " "@ + tok);
}

proof fn lemma_toolbox_step(st: RecordView, t: Toolbox)
    ensures
        block_step(st, "toolbox "@ + toolbox_token(t)) == Ok::<RecordView, Seq<char>>((st.0, t, st.2, st.3, st.4)),
{
    reveal_strlit("toolbox ");
    reveal_strlit("toolbox");
    reveal_strlit("force");
    reveal_strlit(" ");
    reveal_strlit("train");
    reveal_strlit("drill");
    reveal_strlit("full");
    let tok = toolbox_token(t);
    assert(plain_word(tok));
    assert(plain_word("toolbox"@));
    lemma_words3("toolbox"@, tok, tok);
    assert("toolbox "@ + tok =~= "toolbox"@ + " "@ + tok);
    assert("toolbox"@ != "force"@);
    crate::cli::lemma_toolbox_round_trip(t);
}

proof fn lemma_window_step(st: RecordView, base: u64, span: u64)
    ensures
        block_step(st, "window "@ + dec(base as nat) + " "@ + dec(span as nat)) == Ok::<RecordView, Seq<char>>(
            (st.0, st.1, Some((base, span)), st.3, st.4),
        ),
{
    reveal_strlit("window ");
    reveal_strlit("window");
    reveal_strlit("toolbox");
    reveal_strlit("force");
    reveal_strlit(" ");
    lemma_dec_word(base as nat);
    lemma_dec_word(span as nat);
    lemma_dec_reads_back(base as nat);
    lemma_dec_reads_back(span as nat);
    assert(plain_word("window"@));
    lemma_words3("window"@, dec(base as nat), dec(span as nat));
    assert("window "@ + dec(base as nat) + " "@ + dec(span as nat) =~= "window"@ + " "@ + dec(base as nat) + " "@ + dec(
        span as nat,
    ));
    assert("window"@ != "force"@);
    assert("window"@ != "toolbox"@);
}

proof fn lemma_entry_step(st: RecordView, hit: bool, e: (u64, Seq<char>))
    requires
        plain_word(e.1),
    ensures
        block_step(st, (if hit { "hit"@ } else { "sample"@ }) + " "@ + dec(e.0 as nat) + " "@ + e.1) == Ok::<
            RecordView,
            Seq<char>,
        >(if hit {
            (st.0, st.1, st.2, st.3.push(e), st.4)
        } else {
            (st.0, st.1, st.2, st.3, st.4.push(e))
        }),
{
    reveal_strlit("hit");
    reveal_strlit("sample");
    reveal_strlit("window");
    reveal_strlit("toolbox");
    reveal_strlit("force");
    let key = if hit {
        "hit"@
    } else {
        "sample"@
    };
    lemma_dec_word(e.0 as nat);
    lemma_dec_reads_back(e.0 as nat);
    assert(plain_word(key));
    lemma_words3(key, dec(e.0 as nat), e.1);
    if hit {
        assert(key.len() != "window"@.len());
        assert(key.len() != "force"@.len());
        assert(key.len() != "toolbox"@.len());
    } else {
        assert(key[0] != "window"@[0]);
        assert(key[0] != "force"@[0]);
        assert(key[0] != "toolbox"@[0]);
        assert(key.len() != "hit"@.len());
    }
}

proof fn lemma_run_forces(st: RecordView, fs: Seq<(usize, u16)>)
    requires
        forall|i: int| 0 <= i < fs.len() ==> #[trigger] fs[i].0 < 16,
    ensures
        block_run(st, force_seq(fs)) == Ok::<RecordView, Seq<char>>((st.0 + fs, st.1, st.2, st.3, st.4)),
    decreases fs.len(),
{
    if fs.len() == 0 {
        assert(st.0 + fs =~= st.0);
    } else {
        let f0 = fs.drop_last();
        lemma_run_forces(st, f0);
        assert(force_seq(fs).drop_last() =~= force_seq(f0));
        assert(force_seq(fs).last() == "force "@ + force_token(fs.last()));
        lemma_force_step((st.0 + f0, st.1, st.2, st.3, st.4), fs.last());
        assert((st.0 + f0).push(fs.last()) =~= st.0 + fs);
    }
}

proof fn lemma_run_entries(st: RecordView, hit: bool, es: Seq<(u64, Seq<char>)>)
    requires
        forall|i: int| 0 <= i < es.len() ==> #[trigger] plain_word(es[i].1),
    ensures
        block_run(st, entry_seq(if hit { "hit"@ } else { "sample"@ }, es)) == Ok::<RecordView, Seq<char>>(if hit {
            (st.0, st.1, st.2, st.3 + es, st.4)
        } else {
            (st.0, st.1, st.2, st.3, st.4 + es)
        }),
    decreases es.len(),
{
    let key = if hit {
        "hit"@
    } else {
        "sample"@
    };
    if es.len() == 0 {
        assert(st.3 + es =~= st.3);
        assert(st.4 + es =~= st.4);
    } else {
        let e0 = es.drop_last();
        lemma_run_entries(st, hit, e0);
        assert(entry_seq(key, es).drop_last() =~= entry_seq(key, e0));
        assert(entry_seq(key, es).last() == key + " "@ + dec(es.last().0 as nat) + " "@ + es.last().1);
        assert(plain_word(es[es.len() - 1].1));
        if hit {
            lemma_entry_step((st.0, st.1, st.2, st.3 + e0, st.4), hit, es.last());
            assert((st.3 + e0).push(es.last()) =~= st.3 + es);
        } else {
            lemma_entry_step((st.0, st.1, st.2, st.3, st.4 + e0), hit, es.last());
            assert((st.4 + e0).push(es.last()) =~= st.4 + es);
        }
    }
}


/// Lines of plain words joined by single spaces: no line feed, and trimming
/// leaves them as they are.
proof fn lemma_line_shape(a: Seq<char>, b: Seq<char>, c: Seq<char>)
    requires
        plain_word(a),
        plain_word(b),
        plain_word(c),
    ensures
        forall|i: int| 0 <= i < (a + " "@ + b).len() ==> #[trigger] (a + " "@ + b)[i] != '\n',
        forall|i: int| 0 <= i < (a + " "@ + b + " "@ + c).len() ==> #[trigger] (a + " "@ + b + " "@ + c)[i] != '\n',
        (a + " "@ + b)[0] == a[0],
        (a + " "@ + b + " "@ + c)[0] == a[0],
        trim(a + " "@ + b) == a + " "@ + b,
        trim(a + " "@ + b + " "@ + c) == a + " "@ + b + " "@ + c,
{
    reveal_strlit(" ");
    let l2 = a + " "@ + b;
    let l3 = l2 + " "@ + c;
    assert(!is_space_spec(a[0]));
    assert(!is_space_spec(b[b.len() - 1]));
    assert(!is_space_spec(c[c.len() - 1]));
    assert(l2.last() == b.last());
    assert(l3.last() == c.last());
    lemma_trim_id(l2);
    lemma_trim_id(l3);
    assert forall|i: int| 0 <= i < l2.len() implies #[trigger] l2[i] != '\n' by {
        if i < a.len() {
            assert(!is_space_spec(a[i]));
        } else if i > a.len() {
            assert(l2[i] == b[i - a.len() - 1]);
            assert(!is_space_spec(b[i - a.len() - 1]));
        }
    }
    assert forall|i: int| 0 <= i < l3.len() implies #[trigger] l3[i] != '\n' by {
        if i < l2.len() {
            assert(l3[i] == l2[i]);
        } else if i > l2.len() {
            assert(l3[i] == c[i - l2.len() - 1]);
            assert(!is_space_spec(c[i - l2.len() - 1]));
        }
    }
}

proof fn lemma_force_lines(fs: Seq<(usize, u16)>)
    ensures
        force_lines(fs) == lines_text(force_seq(fs)),
    decreases fs.len(),
{
    reveal_strlit("\n");
    if fs.len() > 0 {
        lemma_force_lines(fs.drop_last());
        assert(force_seq(fs).drop_last() =~= force_seq(fs.drop_last()));
        assert(force_seq(fs).last() == "force "@ + force_token(fs.last()));
        assert(force_lines(fs) =~= lines_text(force_seq(fs)));
    } else {
        assert(force_seq(fs) =~= Seq::<Seq<char>>::empty());
    }
}

proof fn lemma_entry_lines(key: Seq<char>, es: Seq<(u64, Seq<char>)>)
    ensures
        entry_lines(key, es) == lines_text(entry_seq(key, es)),
    decreases es.len(),
{
    reveal_strlit("\n");
    if es.len() > 0 {
        lemma_entry_lines(key, es.drop_last());
        assert(entry_seq(key, es).drop_last() =~= entry_seq(key, es.drop_last()));
        assert(entry_seq(key, es).last() == key + " "@ + dec(es.last().0 as nat) + " "@ + es.last().1);
        assert(entry_lines(key, es) =~= lines_text(entry_seq(key, es)));
    } else {
        assert(entry_seq(key, es) =~= Seq::<Seq<char>>::empty());
    }
}

proof fn lemma_block_text_lines(r: RecordView)
    ensures
        block_text(r) == lines_text(block_lines(r)),
{
    reveal_strlit("\n");
    lemma_force_lines(r.0);
    lemma_entry_lines("hit"@, r.3);
    lemma_entry_lines("sample"@, r.4);
    let a = force_seq(r.0);
    let b = seq!["toolbox "@ + toolbox_token(r.1)];
    let c = window_seq(r.2);
    let d = entry_seq("hit"@, r.3);
    let e = entry_seq("sample"@, r.4);
    assert(b.drop_last() =~= Seq::<Seq<char>>::empty());
    assert(lines_text(Seq::<Seq<char>>::empty()) =~= Seq::<char>::empty());
    assert("\n"@ =~= seq!['\n']);
    assert(b.last() == "toolbox "@ + toolbox_token(r.1));
    assert(lines_text(b) =~= "toolbox "@ + toolbox_token(r.1) + "\n"@);
    match r.2 {
        Some((base, span)) => {
            assert(c.drop_last() =~= Seq::<Seq<char>>::empty());
            assert(c.last() == "window "@ + dec(base as nat) + " "@ + dec(span as nat));
            assert(lines_text(c) =~= window_line(r.2));
        },
        None => {
            assert(lines_text(c) =~= window_line(r.2));
        },
    }
    lemma_lines_concat(a, b);
    lemma_lines_concat(a + b, c);
    lemma_lines_concat(a + b + c, d);
    lemma_lines_concat(a + b + c + d, e);
    assert(block_text(r) =~= lines_text(a) + lines_text(b) + lines_text(c) + lines_text(d) + lines_text(e));
}

/// Non-empty lines that do not start with `#` all join the open block.
proof fn lemma_records_fold_plain(lines: Seq<Seq<char>>)
    requires
        forall|k: int| 0 <= k < lines.len() ==> (#[trigger] lines[k]).len() > 0 && lines[k][0] != '#',
    ensures
        records_fold(lines) == Ok::<(Seq<RecordView>, Seq<Seq<char>>), Seq<char>>((Seq::empty(), lines)),
    decreases lines.len(),
{
    if lines.len() > 0 {
        let l0 = lines.drop_last();
        assert forall|k: int| 0 <= k < l0.len() implies (#[trigger] l0[k]).len() > 0 && l0[k][0] != '#' by {
            assert(l0[k] == lines[k]);
        }
        lemma_records_fold_plain(l0);
        assert(lines[lines.len() - 1] == lines.last());
        assert(lines.last().len() > 0 && lines.last()[0] != '#');
        assert(records_fold(lines) == records_step((Seq::<RecordView>::empty(), l0), lines.last()));
        assert(records_step((Seq::<RecordView>::empty(), l0), lines.last()) == Ok::<
            (Seq<RecordView>, Seq<Seq<char>>),
            Seq<char>,
        >((Seq::<RecordView>::empty(), l0.push(lines.last()))));
        assert(l0.push(lines.last()) =~= lines);
    } else {
        assert(lines =~= Seq::<Seq<char>>::empty());
    }
}

/// Every line of a writable record's block is plain words joined by single
/// spaces, starting with a keyword.
proof fn lemma_block_lines_shape(r: RecordView)
    requires
        writable(r),
    ensures
        forall|k: int| 0 <= k < block_lines(r).len() ==> (forall|i: int| 0 <= i < (#[trigger] block_lines(r)[k]).len() ==> block_lines(r)[k][i]
            != '\n') && block_lines(r)[k].len() > 0 && block_lines(r)[k][0] != '#' && trim(block_lines(r)[k]) == block_lines(r)[k],
{
    reveal_strlit("force ");
    reveal_strlit("force");
    reveal_strlit("toolbox ");
    reveal_strlit("toolbox");
    reveal_strlit("window ");
    reveal_strlit("window");
    reveal_strlit("hit");
    reveal_strlit("sample");
    reveal_strlit(" ");
    reveal_strlit("train");
    reveal_strlit("drill");
    reveal_strlit("full");
    let ls = block_lines(r);
    let a = force_seq(r.0);
    let b = seq!["toolbox "@ + toolbox_token(r.1)];
    let c = window_seq(r.2);
    let d = entry_seq("hit"@, r.3);
    let e = entry_seq("sample"@, r.4);
    assert forall|k: int| 0 <= k < ls.len() implies (forall|i: int| 0 <= i < (#[trigger] ls[k]).len() ==> ls[k][i] != '\n')
        && ls[k].len() > 0 && ls[k][0] != '#' && trim(ls[k]) == ls[k] by {
        if k < a.len() {
            let f = r.0[k];
            assert(r.0[k].0 < 16);
            lemma_force_token(f);
            assert(ls[k] == "force "@ + force_token(f));
            assert("force "@ + force_token(f) =~= "force"@ + " "@ + force_token(f));
            lemma_line_shape("force"@, force_token(f), force_token(f));
        } else if k < a.len() + 1 {
            let t = toolbox_token(r.1);
            assert(ls[k] == "toolbox "@ + t);
            assert("toolbox "@ + t =~= "toolbox"@ + " "@ + t);
            lemma_line_shape("toolbox"@, t, t);
        } else if k < a.len() + 1 + c.len() {
            let (base, span) = r.2.unwrap();
            assert(ls[k] == c[0]);
            lemma_dec_word(base as nat);
            lemma_dec_word(span as nat);
            assert("window "@ + dec(base as nat) + " "@ + dec(span as nat) =~= "window"@ + " "@ + dec(base as nat) + " "@ + dec(
                span as nat,
            ));
            lemma_line_shape("window"@, dec(base as nat), dec(span as nat));
        } else if k < a.len() + 1 + c.len() + d.len() {
            let j = k - a.len() - 1 - c.len();
            let en = r.3[j];
            assert(plain_word(r.3[j].1));
            lemma_dec_word(en.0 as nat);
            assert(ls[k] == d[j]);
            lemma_line_shape("hit"@, dec(en.0 as nat), en.1);
        } else {
            let j = k - a.len() - 1 - c.len() - d.len();
            let en = r.4[j];
            assert(plain_word(r.4[j].1));
            lemma_dec_word(en.0 as nat);
            assert(ls[k] == e[j]);
            lemma_line_shape("sample"@, dec(en.0 as nat), en.1);
        }
    }
}

/// A writable record's block lines rebuild the record.
proof fn lemma_block_lines_rebuild(r: RecordView)
    requires
        writable(r),
    ensures
        block_of(block_lines(r)) == Ok::<Option<RecordView>, Seq<char>>(Some(r)),
{
    let ls = block_lines(r);
    let a = force_seq(r.0);
    let b = seq!["toolbox "@ + toolbox_token(r.1)];
    let c = window_seq(r.2);
    let d = entry_seq("hit"@, r.3);
    let e = entry_seq("sample"@, r.4);
    let s0 = empty_block();
    lemma_run_forces(s0, r.0);
    let s1 = (s0.0 + r.0, s0.1, s0.2, s0.3, s0.4);
    assert(s0.0 + r.0 =~= r.0);
    assert(block_run(s1, Seq::<Seq<char>>::empty()) == Ok::<RecordView, Seq<char>>(s1));
    lemma_toolbox_step(s1, r.1);
    assert(b.drop_last() =~= Seq::<Seq<char>>::empty());
    let s2 = (r.0, r.1, s0.2, s0.3, s0.4);
    assert(block_run(s1, b) == Ok::<RecordView, Seq<char>>(s2));
    lemma_block_run_concat(s0, a, b, s1);
    let s3 = (r.0, r.1, r.2, s0.3, s0.4);
    match r.2 {
        Some((base, span)) => {
            lemma_window_step(s2, base, span);
            assert(c.drop_last() =~= Seq::<Seq<char>>::empty());
            assert(c.last() == "window "@ + dec(base as nat) + " "@ + dec(span as nat));
            assert(block_run(s2, Seq::<Seq<char>>::empty()) == Ok::<RecordView, Seq<char>>(s2));
            assert(block_run(s2, c) == Ok::<RecordView, Seq<char>>(s3));
        },
        None => {
            assert(c =~= Seq::<Seq<char>>::empty());
        },
    }
    lemma_block_run_concat(s0, a + b, c, s2);
    lemma_run_entries(s3, true, r.3);
    let s4 = (r.0, r.1, r.2, s0.3 + r.3, s0.4);
    assert(s0.3 + r.3 =~= r.3);
    lemma_block_run_concat(s0, a + b + c, d, s3);
    lemma_run_entries(s4, false, r.4);
    assert(s0.4 + r.4 =~= r.4);
    lemma_block_run_concat(s0, a + b + c + d, e, s4);
    lemma_block_run_fold(ls);
    assert(block_fold(ls) == Ok::<RecordView, Seq<char>>(r));
}

/// Writing a record's block and reading the text back gives exactly that record.
pub proof fn lemma_block_round_trip(r: RecordView)
    requires
        writable(r),
    ensures
        records_of(block_text(r)) == Ok::<Seq<RecordView>, Seq<char>>(seq![r]),
{
    let ls = block_lines(r);
    lemma_block_text_lines(r);
    lemma_block_lines_shape(r);
    lemma_split_lines(ls);
    assert(trims(ls) =~= ls);
    assert forall|k: int| 0 <= k < ls.len() implies (#[trigger] ls[k]).len() > 0 && ls[k][0] != '#' by {}
    lemma_records_fold_plain(ls);
    lemma_block_lines_rebuild(r);
    assert(Seq::<RecordView>::empty().push(r) =~= seq![r]);
}

} // verus!
