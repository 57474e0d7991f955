use crate::clauses::{in_range, Clause};
use crate::variables::{Atom, VarRef};
use crate::words::{line_seq, lines_from, read_lines, word_seq};
use vstd::prelude::*;

verus! {

/// A clause list with the names of its variables; the variable with index
/// `i` is the one called `names[i]`.
pub struct Formula {
    pub clauses: Vec<Clause>,
    pub names: Vec<Vec<u8>>,
}

/// The names as byte sequences.
pub open spec fn name_seq(names: Seq<Vec<u8>>) -> Seq<Seq<u8>> {
    Seq::new(names.len(), |i: int| names[i]@)
}

/// No two names are the same.
pub open spec fn distinct_names(names: Seq<Seq<u8>>) -> bool {
    forall|i: int, j: int| 0 <= i < j < names.len() ==> #[trigger] names[i] != #[trigger] names[j]
}

/// Whether the word is a negated literal: it starts with `!`.
pub open spec fn negated_word(word: Seq<u8>) -> bool {
    word.len() > 0 && word[0] == 33
}

/// The variable name in a word: the word without a leading `!`.
pub open spec fn literal_name(word: Seq<u8>) -> Seq<u8> {
    if negated_word(word) {
        word.skip(1)
    } else {
        word
    }
}

/// The names known after the words of one line: each new name is added
/// at the end, in the order of the words.
pub open spec fn intern_words(names: Seq<Seq<u8>>, words: Seq<Seq<u8>>) -> Seq<Seq<u8>>
    decreases words.len(),
{
    if words.len() == 0 {
        names
    } else {
        let known = intern_words(names, words.drop_last());
        let name = literal_name(words.last());
        if known.contains(name) {
            known
        } else {
            known.push(name)
        }
    }
}

/// The names of all lines, in order of first appearance.
pub open spec fn intern_lines(lines: Seq<Seq<Seq<u8>>>) -> Seq<Seq<u8>>
    decreases lines.len(),
{
    if lines.len() == 0 {
        Seq::empty()
    } else {
        intern_words(intern_lines(lines.drop_last()), lines.last())
    }
}

/// The literal stands for the word: same sign, and its variable is the one
/// that carries the word's name.
pub open spec fn reads_word(a: Atom, word: Seq<u8>, names: Seq<Seq<u8>>) -> bool {
    &&& a.polarity == !negated_word(word)
    &&& 0 <= a.index() < names.len()
    &&& names[a.index()] == literal_name(word)
}

/// The clause stands for the line, word by word.
pub open spec fn reads_line(body: Seq<Atom>, words: Seq<Seq<u8>>, names: Seq<Seq<u8>>) -> bool {
    &&& body.len() == words.len()
    &&& forall|i: int| 0 <= i < body.len() ==> reads_word(#[trigger] body[i], words[i], names)
}

impl Formula {
    /// Every literal names a known variable, and no name occurs twice.
    pub open spec fn wf(&self) -> bool {
        &&& forall|c: int|
            0 <= c < self.clauses@.len() ==> in_range(
                (#[trigger] self.clauses@[c]).body@,
                self.names@.len() as int,
            )
        &&& distinct_names(name_seq(self.names@))
    }

    /// The formula is what the lines say: the names are those of the
    /// lines in order of first appearance, no name twice, and each clause
    /// stands for its line.
    pub open spec fn reads(&self, lines: Seq<Seq<Seq<u8>>>) -> bool {
        &&& name_seq(self.names@) == intern_lines(lines)
        &&& distinct_names(name_seq(self.names@))
        &&& self.clauses@.len() == lines.len()
        &&& forall|c: int|
            0 <= c < lines.len() ==> reads_line(
                (#[trigger] self.clauses@[c]).body@,
                lines[c],
                name_seq(self.names@),
            )
    }
}

/// Whether two byte strings are equal.
pub fn same_bytes(a: &Vec<u8>, b: &Vec<u8>) -> (r: bool)
    ensures
        r == (a@ == b@),
{
    if a.len() != b.len() {
        return false;
    }
    let mut i: usize = 0;
    while i < a.len()
        invariant
            a@.len() == b@.len(),
            0 <= i <= a@.len(),
            forall|j: int| 0 <= j < i ==> a@[j] == b@[j],
        decreases a@.len() - i,
    {
        if a[i] != b[i] {
            return false;
        }
        i += 1;
    }
    assert(a@ =~= b@);
    true
}

/// The index of `name` among the names, which is added at the end if it
/// is new.
pub fn intern(names: &mut Vec<Vec<u8>>, name: Vec<u8>) -> (id: usize)
    ensures
        name_seq(old(names)@).contains(name@) ==> final(names)@ == old(names)@,
        !name_seq(old(names)@).contains(name@) ==> final(names)@ == old(names)@.push(name) && id
            == old(names)@.len(),
        0 <= id < final(names)@.len(),
        final(names)@[id as int]@ == name@,
        forall|j: int| 0 <= j < id ==> (#[trigger] old(names)@[j])@ != name@,
{
    let mut i: usize = 0;
    while i < names.len()
        invariant
            names@ == old(names)@,
            0 <= i <= names@.len(),
            forall|j: int| 0 <= j < i ==> (#[trigger] names@[j])@ != name@,
        decreases names@.len() - i,
    {
        if same_bytes(&names[i], &name) {
            proof {
                assert(name_seq(names@)[i as int] == name@);
            }
            return i;
        }
        i += 1;
    }
    proof {
        assert forall|j: int| 0 <= j < name_seq(names@).len() implies name_seq(names@)[j]
            != name@ by {
            assert(names@[j]@ != name@);
        }
    }
    names.push(name);
    i
}

/// The sign of the word and a copy of its name.
pub fn split_literal(word: &Vec<u8>) -> (r: (Vec<u8>, bool))
    ensures
        r.0@ == literal_name(word@),
        r.1 == !negated_word(word@),
{
    let negated = word.len() > 0 && word[0] == 33;
    let mut name: Vec<u8> = Vec::new();
    let from: usize = if negated {
        1
    } else {
        0
    };
    let mut i: usize = from;
    while i < word.len()
        invariant
            from <= i <= word@.len(),
            name@ == word@.subrange(from as int, i as int),
        decreases word@.len() - i,
    {
        name.push(word[i]);
        proof {
            assert(name@ =~= word@.subrange(from as int, i + 1));
        }
        i += 1;
    }
    proof {
        assert(word@.subrange(from as int, word@.len() as int) =~= literal_name(word@));
    }
    (name, !negated)
}

/// Give every name an index, in order of first appearance, and turn each
/// line into a clause over those indices.
pub fn name_clauses(lines: &Vec<Vec<Vec<u8>>>) -> (f: Formula)
    ensures
        f.reads(line_seq(lines@)),
        f.wf(),
{
    let ghost all = line_seq(lines@);
    let mut names: Vec<Vec<u8>> = Vec::new();
    let mut clauses: Vec<Clause> = Vec::new();
    let mut c: usize = 0;
    proof {
        assert(all.take(0) =~= Seq::<Seq<Seq<u8>>>::empty());
        assert(name_seq(names@) =~= intern_lines(all.take(0)));
    }
    while c < lines.len()
        invariant
            all == line_seq(lines@),
            0 <= c <= lines@.len(),
            clauses@.len() == c,
            name_seq(names@) == intern_lines(all.take(c as int)),
            distinct_names(name_seq(names@)),
            forall|k: int|
                0 <= k < c ==> reads_line((#[trigger] clauses@[k]).body@, all[k], name_seq(names@)),
        decreases lines@.len() - c,
    {
        let line = &lines[c];
        let ghost words = all[c as int];
        let ghost base = name_seq(names@);
        let mut atoms: Vec<Atom> = Vec::new();
        let mut i: usize = 0;
        proof {
            assert(words == word_seq(line@));
            assert(words.take(0) =~= Seq::<Seq<u8>>::empty());
        }
        while i < line.len()
            invariant
                all == line_seq(lines@),
                0 <= c < lines@.len(),
                line == &lines@[c as int],
                words == word_seq(line@),
                words == all[c as int],
                0 <= i <= line@.len(),
                clauses@.len() == c,
                atoms@.len() == i,
                base == intern_lines(all.take(c as int)),
                name_seq(names@) == intern_words(base, words.take(i as int)),
                distinct_names(name_seq(names@)),
                forall|k: int|
                    0 <= k < c ==> reads_line(
                        (#[trigger] clauses@[k]).body@,
                        all[k],
                        name_seq(names@),
                    ),
                forall|j: int|
                    0 <= j < i ==> reads_word(#[trigger] atoms@[j], words[j], name_seq(names@)),
            decreases line@.len() - i,
        {
            let (name, polarity) = split_literal(&line[i]);
            let ghost before = names@;
            let ghost old_atoms = atoms@;
            let id = intern(&mut names, name);
            atoms.push(VarRef { id }.as_atom(polarity));
            proof {
                let known = name_seq(before);
                let now = name_seq(names@);
                assert(words.take(i + 1).drop_last() =~= words.take(i as int));
                assert(words.take(i + 1).last() == words[i as int]);
                assert(words[i as int] == line@[i as int]@);
                if known.contains(name@) {
                    assert(now =~= known);
                } else {
                    assert(now =~= known.push(name@));
                    assert forall|x: int, y: int| 0 <= x < y < now.len() implies #[trigger] now[x]
                        != #[trigger] now[y] by {
                        if y == known.len() {
                            assert(known[x] != name@);
                        } else {
                            assert(known[x] != known[y]);
                        }
                    }
                }
                assert forall|k: int| 0 <= k < known.len() implies now[k] == known[k] by {}
                assert forall|k: int| 0 <= k < c implies reads_line(
                    (#[trigger] clauses@[k]).body@,
                    all[k],
                    now,
                ) by {
                    let body = clauses@[k].body@;
                    assert(reads_line(body, all[k], known));
                    assert forall|j: int| 0 <= j < body.len() implies reads_word(
                        #[trigger] body[j],
                        all[k][j],
                        now,
                    ) by {
                        assert(reads_word(body[j], all[k][j], known));
                    }
                }
                assert forall|j: int| 0 <= j < i + 1 implies reads_word(
                    #[trigger] atoms@[j],
                    words[j],
                    now,
                ) by {
                    if j < i {
                        assert(atoms@[j] == old_atoms[j]);
                        assert(reads_word(old_atoms[j], words[j], known));
                    }
                }
            }
            i += 1;
        }
        let ghost old_clauses = clauses@;
        clauses.push(Clause::new(atoms));
        proof {
            assert(words.take(line@.len() as int) =~= words);
            assert(all.take(c + 1).drop_last() =~= all.take(c as int));
            assert(all.take(c + 1).last() == words);
            assert forall|k: int| 0 <= k < c + 1 implies reads_line(
                (#[trigger] clauses@[k]).body@,
                all[k],
                name_seq(names@),
            ) by {
                if k < c {
                    assert(clauses@[k] == old_clauses[k]);
                }
            }
        }
        c += 1;
    }
    proof {
        assert(all.take(lines@.len() as int) =~= all);
        assert forall|k: int| 0 <= k < clauses@.len() implies in_range(
            (#[trigger] clauses@[k]).body@,
            names@.len() as int,
        ) by {
            let body = clauses@[k].body@;
            assert(reads_line(body, all[k], name_seq(names@)));
            assert forall|j: int| 0 <= j < body.len() implies 0 <= (#[trigger] body[j]).index()
                < names@.len() by {
                assert(reads_word(body[j], all[k][j], name_seq(names@)));
            }
        }
    }
    Formula { clauses, names }
}

/// Read clauses, one per line, up to the end of the text or to the first
/// line without a literal.  A literal is a run of bytes without a
/// separator; a leading `!` negates it.  Names get their indices in order
/// of first appearance.
pub fn parse(input: &[u8]) -> (f: Formula)
    ensures
        f.reads(lines_from(input@, 0)),
        f.wf(),
{
    let lines = read_lines(input);
    name_clauses(&lines)
}

/// The line that reports one variable: its name, a blank, then `1`, `0`
/// or `_` for true, false or unset, and a line feed.
pub open spec fn value_line(name: Seq<u8>, value: Option<bool>) -> Seq<u8> {
    name + seq![
        32u8,
        match value {
            Some(true) => 49u8,
            Some(false) => 48u8,
            None => 95u8,
        },
        10u8,
    ]
}

/// The value lines of the first `k` variables, in index order.
pub open spec fn value_lines(names: Seq<Vec<u8>>, asg: Seq<Option<bool>>, k: int) -> Seq<u8>
    decreases k,
{
    if k <= 0 {
        Seq::empty()
    } else {
        value_lines(names, asg, k - 1) + value_line(names[k - 1]@, asg[k - 1])
    }
}

/// The report of a satisfying assignment: the line `SAT`, then one value
/// line per variable.
pub open spec fn sat_text(names: Seq<Vec<u8>>, asg: Seq<Option<bool>>) -> Seq<u8> {
    seq![83u8, 65u8, 84u8, 10u8] + value_lines(names, asg, names.len() as int)
}

/// The report that no assignment satisfies the clauses: the line `UNSAT`.
pub open spec fn unsat_text() -> Seq<u8> {
    seq![85u8, 78u8, 83u8, 65u8, 84u8, 10u8]
}

/// Write the report of a satisfying assignment.
pub fn render_sat(names: &Vec<Vec<u8>>, assignments: &Vec<Option<bool>>) -> (out: Vec<u8>)
    requires
        names@.len() <= assignments@.len(),
    ensures
        out@ == sat_text(names@, assignments@),
{
    let mut out: Vec<u8> = Vec::new();
    out.push(83);
    out.push(65);
    out.push(84);
    out.push(10);
    let ghost head = out@;
    assert(head =~= seq![83u8, 65u8, 84u8, 10u8]);
    let mut k: usize = 0;
    while k < names.len()
        invariant
            names@.len() <= assignments@.len(),
            0 <= k <= names@.len(),
            out@ == head + value_lines(names@, assignments@, k as int),
        decreases names@.len() - k,
    {
        let ghost line_start = out@;
        let name = &names[k];
        let mut j: usize = 0;
        while j < name.len()
            invariant
                0 <= j <= name@.len(),
                out@ == line_start + name@.take(j as int),
            decreases name@.len() - j,
        {
            out.push(name[j]);
            proof {
                assert(name@.take(j + 1) =~= name@.take(j as int).push(name@[j as int]));
                assert(out@ =~= line_start + name@.take(j + 1));
            }
            j += 1;
        }
        out.push(32);
        let digit: u8 = match assignments[k] {
            Some(true) => 49,
            Some(false) => 48,
            None => 95,
        };
        out.push(digit);
        out.push(10);
        proof {
            assert(name@.take(name@.len() as int) =~= name@);
            assert(out@ =~= line_start + value_line(name@, assignments@[k as int]));
            assert(out@ =~= head + value_lines(names@, assignments@, k + 1));
        }
        k += 1;
    }
    out
}

/// Write the report that no assignment satisfies the clauses.
pub fn render_unsat() -> (out: Vec<u8>)
    ensures
        out@ == unsat_text(),
{
    let mut out: Vec<u8> = Vec::new();
    out.push(85);
    out.push(78);
    out.push(83);
    out.push(65);
    out.push(84);
    out.push(10);
    assert(out@ =~= unsat_text());
    out
}

} // verus!
