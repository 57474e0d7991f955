use crate::clauses::{body_text, Clause};
use crate::cnf::{name_seq, negated_word, reads_line, reads_word, Formula};
use crate::variables::{decimal, Atom};
use crate::words::{is_space, line_end, line_words, lines_from, skip_blanks, word_end};
use vstd::prelude::*;

verus! {

/// A word that can be read back: it is not empty and holds no separator.
pub open spec fn clean_word(w: Seq<u8>) -> bool {
    w.len() > 0 && forall|i: int| 0 <= i < w.len() ==> !is_space(#[trigger] w[i])
}

/// A line that can be read back: it has a word, and all its words are clean.
pub open spec fn clean_line(ws: Seq<Seq<u8>>) -> bool {
    ws.len() > 0 && forall|i: int| 0 <= i < ws.len() ==> clean_word(#[trigger] ws[i])
}

/// The words, each followed by a blank.
pub open spec fn line_text(ws: Seq<Seq<u8>>) -> Seq<u8>
    decreases ws.len(),
{
    if ws.len() == 0 {
        Seq::empty()
    } else {
        line_text(ws.drop_last()) + ws.last() + seq![32u8]
    }
}

/// The lines, each followed by a line feed.
pub open spec fn lines_text(ls: Seq<Seq<Seq<u8>>>) -> Seq<u8>
    decreases ls.len(),
{
    if ls.len() == 0 {
        Seq::empty()
    } else {
        lines_text(ls.drop_last()) + line_text(ls.last()) + seq![10u8]
    }
}

/// The literals of a clause as words.
pub open spec fn clause_words(body: Seq<Atom>) -> Seq<Seq<u8>> {
    Seq::new(body.len(), |i: int| body[i].text())
}

/// The clauses as lines of words.
pub open spec fn formula_lines(clauses: Seq<Clause>) -> Seq<Seq<Seq<u8>>> {
    Seq::new(clauses.len(), |c: int| clause_words(clauses[c].body@))
}

/// The clause list as text: one clause per line.
pub open spec fn formula_text(clauses: Seq<Clause>) -> Seq<u8> {
    lines_text(formula_lines(clauses))
}

proof fn lemma_scan_bounds(s: Seq<u8>, i: int)
    ensures
        skip_blanks(s, i) >= i,
        word_end(s, i) >= i,
        line_end(s, i) >= i,
    decreases s.len() - i,
{
    if 0 <= i < s.len() {
        lemma_scan_bounds(s, i + 1);
    }
}

proof fn lemma_shift_scans(p: Seq<u8>, r: Seq<u8>, i: int)
    requires
        0 <= i,
    ensures
        skip_blanks(p + r, p.len() + i) == p.len() + skip_blanks(r, i),
        word_end(p + r, p.len() + i) == p.len() + word_end(r, i),
        line_end(p + r, p.len() + i) == p.len() + line_end(r, i),
    decreases r.len() - i,
{
    if i < r.len() {
        assert((p + r)[p.len() + i] == r[i]);
        lemma_shift_scans(p, r, i + 1);
    }
}

proof fn lemma_shift_words(p: Seq<u8>, r: Seq<u8>, i: int)
    requires
        0 <= i,
    ensures
        line_words(p + r, p.len() + i) == line_words(r, i),
    decreases r.len() - i,
{
    let s = p + r;
    let a = skip_blanks(r, i);
    lemma_scan_bounds(r, i);
    lemma_shift_scans(p, r, i);
    let b = word_end(r, a);
    lemma_scan_bounds(r, a);
    lemma_shift_scans(p, r, a);
    if i <= a < b <= r.len() {
        lemma_shift_words(p, r, b);
        assert(s.subrange(p.len() + a, p.len() + b) =~= r.subrange(a, b));
    }
}

proof fn lemma_shift_lines(p: Seq<u8>, r: Seq<u8>, i: int)
    requires
        0 <= i,
    ensures
        lines_from(p + r, p.len() + i) == lines_from(r, i),
    decreases r.len() - i,
{
    if i < r.len() {
        lemma_shift_words(p, r, i);
        lemma_shift_scans(p, r, i);
        lemma_scan_bounds(r, i);
        let e = line_end(r, i);
        if e < r.len() {
            lemma_shift_lines(p, r, e + 1);
        }
    }
}

proof fn lemma_word_end_clean(w: Seq<u8>, r: Seq<u8>, i: int)
    requires
        forall|j: int| 0 <= j < w.len() ==> !is_space(#[trigger] w[j]),
        r.len() > 0,
        is_space(r[0]),
        0 <= i <= w.len(),
    ensures
        word_end(w + r, i) == w.len(),
    decreases w.len() - i,
{
    if i < w.len() {
        assert((w + r)[i] == w[i]);
        lemma_word_end_clean(w, r, i + 1);
    } else {
        assert((w + r)[i] == r[0]);
    }
}

proof fn lemma_one_word(w: Seq<u8>, r: Seq<u8>)
    requires
        clean_word(w),
    ensures
        line_words(w + seq![32u8] + r, 0) == seq![w] + line_words(r, 0),
{
    let t = seq![32u8] + r;
    let s = w + t;
    assert(w + seq![32u8] + r =~= s);
    assert(s[0] == w[0]);
    assert(skip_blanks(s, 0) == 0);
    lemma_word_end_clean(w, t, 0);
    assert(s.subrange(0, w.len() as int) =~= w);
    assert(line_words(s, 0) == seq![w] + line_words(s, w.len() as int));
    lemma_shift_words(w, t, 0);
    assert(t[0] == 32u8);
    assert(skip_blanks(t, 0) == skip_blanks(t, 1));
    lemma_scan_bounds(t, 1);
    assert(line_words(t, 0) == line_words(t, 1));
    lemma_shift_words(seq![32u8], r, 0);
}

proof fn lemma_line_words(ws: Seq<Seq<u8>>, r: Seq<u8>)
    requires
        forall|i: int| 0 <= i < ws.len() ==> clean_word(#[trigger] ws[i]),
    ensures
        line_words(line_text(ws) + r, 0) == ws + line_words(r, 0),
    decreases ws.len(),
{
    if ws.len() == 0 {
        assert(line_text(ws) + r =~= r);
        assert(ws + line_words(r, 0) =~= line_words(r, 0));
    } else {
        let rest = ws.last() + seq![32u8] + r;
        assert(line_text(ws) + r =~= line_text(ws.drop_last()) + rest);
        assert forall|i: int| 0 <= i < ws.drop_last().len() implies clean_word(
            #[trigger] ws.drop_last()[i],
        ) by {
            assert(ws.drop_last()[i] == ws[i]);
        }
        lemma_line_words(ws.drop_last(), rest);
        assert(clean_word(ws[ws.len() - 1]));
        lemma_one_word(ws.last(), r);
        assert(ws.drop_last() + (seq![ws.last()] + line_words(r, 0)) =~= ws + line_words(r, 0));
    }
}

proof fn lemma_line_text_no_feed(ws: Seq<Seq<u8>>)
    requires
        forall|i: int| 0 <= i < ws.len() ==> clean_word(#[trigger] ws[i]),
    ensures
        forall|j: int| 0 <= j < line_text(ws).len() ==> #[trigger] line_text(ws)[j] != 10,
    decreases ws.len(),
{
    if ws.len() > 0 {
        assert forall|i: int| 0 <= i < ws.drop_last().len() implies clean_word(
            #[trigger] ws.drop_last()[i],
        ) by {
            assert(ws.drop_last()[i] == ws[i]);
        }
        lemma_line_text_no_feed(ws.drop_last());
        let head = line_text(ws.drop_last());
        let w = ws.last();
        assert(clean_word(ws[ws.len() - 1]));
        assert forall|j: int| 0 <= j < line_text(ws).len() implies #[trigger] line_text(ws)[j]
            != 10 by {
            if j < head.len() {
                assert(line_text(ws)[j] == head[j]);
            } else if j < head.len() + w.len() {
                assert(line_text(ws)[j] == w[j - head.len()]);
                assert(!is_space(w[j - head.len()]));
            } else {
                assert(line_text(ws)[j] == 32u8);
            }
        }
    }
}

proof fn lemma_line_end_at(p: Seq<u8>, r: Seq<u8>, i: int)
    requires
        forall|j: int| 0 <= j < p.len() ==> #[trigger] p[j] != 10,
        r.len() > 0,
        r[0] == 10,
        0 <= i <= p.len(),
    ensures
        line_end(p + r, i) == p.len(),
    decreases p.len() - i,
{
    if i < p.len() {
        assert((p + r)[i] == p[i]);
        lemma_line_end_at(p, r, i + 1);
    } else {
        assert((p + r)[i] == r[0]);
    }
}

proof fn lemma_one_line(ws: Seq<Seq<u8>>, r: Seq<u8>)
    requires
        clean_line(ws),
    ensures
        lines_from(line_text(ws) + seq![10u8] + r, 0) == seq![ws] + lines_from(r, 0),
{
    let p = line_text(ws);
    let t = seq![10u8] + r;
    let s = p + t;
    assert(p + seq![10u8] + r =~= s);
    lemma_line_words(ws, t);
    assert(t[0] == 10u8);
    assert(skip_blanks(t, 0) == 0);
    assert(word_end(t, 0) == 0);
    assert(line_words(t, 0) =~= Seq::<Seq<u8>>::empty());
    assert(line_words(s, 0) =~= ws);
    lemma_line_text_no_feed(ws);
    lemma_line_end_at(p, t, 0);
    assert(lines_from(s, 0) == seq![ws] + lines_from(s, (p.len() + 1) as int));
    assert(s =~= (p + seq![10u8]) + r);
    lemma_shift_lines(p + seq![10u8], r, 0);
}

/// Reading the text of clean lines gives the lines back, followed by what
/// is read from the text after them.
pub proof fn lemma_read_back(ls: Seq<Seq<Seq<u8>>>, r: Seq<u8>)
    requires
        forall|c: int| 0 <= c < ls.len() ==> clean_line(#[trigger] ls[c]),
    ensures
        lines_from(lines_text(ls) + r, 0) == ls + lines_from(r, 0),
    decreases ls.len(),
{
    if ls.len() == 0 {
        assert(lines_text(ls) + r =~= r);
        assert(ls + lines_from(r, 0) =~= lines_from(r, 0));
    } else {
        let rest = line_text(ls.last()) + seq![10u8] + r;
        assert(lines_text(ls) + r =~= lines_text(ls.drop_last()) + rest);
        assert forall|c: int| 0 <= c < ls.drop_last().len() implies clean_line(
            #[trigger] ls.drop_last()[c],
        ) by {
            assert(ls.drop_last()[c] == ls[c]);
        }
        lemma_read_back(ls.drop_last(), rest);
        assert(clean_line(ls[ls.len() - 1]));
        lemma_one_line(ls.last(), r);
        assert(ls.drop_last() + (seq![ls.last()] + lines_from(r, 0)) =~= ls + lines_from(r, 0));
    }
}

/// The digits of a number are a clean word.
pub proof fn lemma_decimal_clean(n: nat)
    ensures
        clean_word(decimal(n)),
        forall|i: int| 0 <= i < decimal(n).len() ==> 48 <= #[trigger] decimal(n)[i] <= 57,
    decreases n,
{
    if n >= 10 {
        lemma_decimal_clean(n / 10);
        let d = decimal(n / 10);
        assert forall|i: int| 0 <= i < decimal(n).len() implies 48 <= #[trigger] decimal(n)[i]
            <= 57 by {
            if i < d.len() {
                assert(decimal(n)[i] == d[i]);
            }
        }
    }
}

/// The number that a sequence of digits stands for.
pub open spec fn digits_value(d: Seq<u8>) -> nat
    decreases d.len(),
{
    if d.len() == 0 {
        0
    } else {
        (digits_value(d.drop_last()) * 10 + (d.last() - 48)) as nat
    }
}

/// The digits of a number stand for it, so different numbers have
/// different digits.
pub proof fn lemma_decimal_value(n: nat)
    ensures
        digits_value(decimal(n)) == n,
    decreases n,
{
    if n < 10 {
        assert(decimal(n).drop_last() =~= Seq::<u8>::empty());
        assert(digits_value(decimal(n).drop_last()) == 0);
    } else {
        lemma_decimal_value(n / 10);
        assert(decimal(n).drop_last() =~= decimal(n / 10));
    }
}

/// The text of a clause is the text of its literals as a line of words.
pub proof fn lemma_body_text(body: Seq<Atom>)
    ensures
        body_text(body) == line_text(clause_words(body)),
    decreases body.len(),
{
    if body.len() > 0 {
        lemma_body_text(body.drop_last());
        assert(clause_words(body).drop_last() =~= clause_words(body.drop_last()));
    }
}

/// Write the clause list as text, one clause per line.
pub fn write_clauses(clauses: &Vec<Clause>) -> (out: Vec<u8>)
    ensures
        out@ == formula_text(clauses@),
{
    let mut out: Vec<u8> = Vec::new();
    let mut c: usize = 0;
    proof {
        assert(formula_lines(clauses@).take(0) =~= Seq::<Seq<Seq<u8>>>::empty());
    }
    while c < clauses.len()
        invariant
            0 <= c <= clauses@.len(),
            out@ == lines_text(formula_lines(clauses@).take(c as int)),
        decreases clauses@.len() - c,
    {
        let ghost start = out@;
        let line = clauses[c].to_text();
        let mut j: usize = 0;
        while j < line.len()
            invariant
                0 <= j <= line@.len(),
                out@ == start + line@.take(j as int),
            decreases line@.len() - j,
        {
            out.push(line[j]);
            proof {
                assert(out@ =~= start + line@.take(j + 1));
            }
            j += 1;
        }
        out.push(10);
        proof {
            let ls = formula_lines(clauses@);
            lemma_body_text(clauses@[c as int].body@);
            assert(line@.take(line@.len() as int) =~= line@);
            assert(ls.take(c + 1).drop_last() =~= ls.take(c as int));
            assert(ls.take(c + 1).last() == clause_words(clauses@[c as int].body@));
            assert(out@ =~= lines_text(ls.take(c + 1)));
        }
        c += 1;
    }
    proof {
        assert(formula_lines(clauses@).take(clauses@.len() as int) =~= formula_lines(clauses@));
    }
    out
}

/// Printing a list of non-empty clauses and parsing the text gives the
/// clauses back up to the names of the variables: as many clauses, each
/// with as many literals, every literal with its sign, and its variable
/// under the name that is the old variable's text.
pub proof fn lemma_print_then_parse(clauses: Seq<Clause>, f: Formula)
    requires
        forall|c: int| 0 <= c < clauses.len() ==> (#[trigger] clauses[c]).body@.len() > 0,
        f.reads(lines_from(formula_text(clauses), 0)),
    ensures
        f.clauses@.len() == clauses.len(),
        forall|c: int|
            0 <= c < clauses.len() ==> (#[trigger] f.clauses@[c]).body@.len()
                == clauses[c].body@.len(),
        forall|c: int, i: int|
            0 <= c < clauses.len() && 0 <= i < clauses[c].body@.len() ==> {
                let new = #[trigger] f.clauses@[c].body@[i];
                let old = clauses[c].body@[i];
                &&& new.polarity == old.polarity
                &&& 0 <= new.index() < f.names@.len()
                &&& f.names@[new.index()]@ == old.var.text()
            },
{
    let ls = formula_lines(clauses);
    assert forall|c: int| 0 <= c < ls.len() implies clean_line(#[trigger] ls[c]) by {
        let body = clauses[c].body@;
        assert forall|i: int| 0 <= i < ls[c].len() implies clean_word(#[trigger] ls[c][i]) by {
            lemma_decimal_clean(body[i].var.id as nat);
            let w = body[i].text();
            let d = body[i].var.text();
            assert(ls[c][i] == w);
            if !body[i].polarity {
                assert forall|j: int| 0 <= j < w.len() implies !is_space(#[trigger] w[j]) by {
                    if j >= 1 {
                        assert(w[j] == d[j - 1]);
                    }
                }
            }
        }
    }
    lemma_read_back(ls, Seq::empty());
    assert(lines_text(ls) + Seq::<u8>::empty() =~= lines_text(ls));
    assert(ls + lines_from(Seq::<u8>::empty(), 0) =~= ls);
    assert(lines_from(formula_text(clauses), 0) == ls);
    assert forall|c: int| 0 <= c < clauses.len() implies (#[trigger] f.clauses@[c]).body@.len()
        == clauses[c].body@.len() by {
        assert(reads_line(f.clauses@[c].body@, ls[c], name_seq(f.names@)));
    }
    assert forall|c: int, i: int|
        0 <= c < clauses.len() && 0 <= i < clauses[c].body@.len() implies {
        let new = #[trigger] f.clauses@[c].body@[i];
        let old = clauses[c].body@[i];
        &&& new.polarity == old.polarity
        &&& 0 <= new.index() < f.names@.len()
        &&& f.names@[new.index()]@ == old.var.text()
    } by {
        let new = f.clauses@[c].body@[i];
        let old = clauses[c].body@[i];
        assert(reads_line(f.clauses@[c].body@, ls[c], name_seq(f.names@)));
        assert(reads_word(new, ls[c][i], name_seq(f.names@)));
        assert(ls[c][i] == old.text());
        lemma_decimal_clean(old.var.id as nat);
        let d = old.var.text();
        assert(48 <= d[0] <= 57);
        if old.polarity {
            assert(!negated_word(old.text()));
        } else {
            assert(old.text()[0] == 33u8);
            assert(old.text().skip(1) =~= d);
        }
    }
}

/// Every line that is read has a word.
pub proof fn lemma_lines_have_words(s: Seq<u8>, i: int)
    ensures
        forall|k: int| 0 <= k < lines_from(s, i).len() ==> (#[trigger] lines_from(s, i)[k]).len() > 0,
    decreases s.len() - i,
{
    if 0 <= i < s.len() {
        let ws = line_words(s, i);
        let e = line_end(s, i);
        if ws.len() == 0 || e < i {
        } else if e >= s.len() {
        } else {
            lemma_lines_have_words(s, e + 1);
            let rest = lines_from(s, e + 1);
            assert forall|k: int| 0 <= k < lines_from(s, i).len() implies (#[trigger] lines_from(
                s,
                i,
            )[k]).len() > 0 by {
                if k >= 1 {
                    assert(lines_from(s, i)[k] == rest[k - 1]);
                }
            }
        }
    }
}

/// Parsing a text, printing the clauses and parsing the print gives the
/// same clauses up to the names of the variables: as many clauses, each
/// with as many literals of the same signs, and two literals share their
/// variable in the one exactly if they do in the other.
pub proof fn lemma_parse_print_parse(text: Seq<u8>, f: Formula, g: Formula)
    requires
        f.reads(lines_from(text, 0)),
        g.reads(lines_from(formula_text(f.clauses@), 0)),
    ensures
        g.clauses@.len() == f.clauses@.len(),
        forall|c: int|
            0 <= c < f.clauses@.len() ==> (#[trigger] g.clauses@[c]).body@.len()
                == f.clauses@[c].body@.len(),
        forall|c: int, i: int|
            0 <= c < f.clauses@.len() && 0 <= i < f.clauses@[c].body@.len() ==> (
            #[trigger] g.clauses@[c].body@[i]).polarity == f.clauses@[c].body@[i].polarity,
        forall|c: int, i: int, d: int, j: int|
            0 <= c < f.clauses@.len() && 0 <= i < f.clauses@[c].body@.len() && 0 <= d
                < f.clauses@.len() && 0 <= j < f.clauses@[d].body@.len() ==> ((
            #[trigger] g.clauses@[c].body@[i]).index() == (#[trigger] g.clauses@[d].body@[j]).index()
                <==> f.clauses@[c].body@[i].index() == f.clauses@[d].body@[j].index()),
{
    let ls = lines_from(text, 0);
    lemma_lines_have_words(text, 0);
    assert forall|c: int| 0 <= c < f.clauses@.len() implies (#[trigger] f.clauses@[c]).body@.len()
        > 0 by {
        assert(reads_line(f.clauses@[c].body@, ls[c], name_seq(f.names@)));
        assert(ls[c].len() > 0);
    }
    lemma_print_then_parse(f.clauses@, g);
    assert forall|c: int, i: int, d: int, j: int|
        0 <= c < f.clauses@.len() && 0 <= i < f.clauses@[c].body@.len() && 0 <= d
            < f.clauses@.len() && 0 <= j < f.clauses@[d].body@.len() implies ((
    #[trigger] g.clauses@[c].body@[i]).index() == (#[trigger] g.clauses@[d].body@[j]).index()
        <==> f.clauses@[c].body@[i].index() == f.clauses@[d].body@[j].index()) by {
        let a = g.clauses@[c].body@[i];
        let b = g.clauses@[d].body@[j];
        let x = f.clauses@[c].body@[i];
        let y = f.clauses@[d].body@[j];
        assert(g.names@[a.index()]@ == x.var.text());
        assert(g.names@[b.index()]@ == y.var.text());
        lemma_decimal_value(x.var.id as nat);
        lemma_decimal_value(y.var.id as nat);
        if a.index() != b.index() {
            let names = name_seq(g.names@);
            if a.index() < b.index() {
                assert(names[a.index()] != names[b.index()]);
            } else {
                assert(names[b.index()] != names[a.index()]);
            }
        }
    }
}

} // verus!
