use vstd::prelude::*;

verus! {

/// The bytes that separate literals: blank, tab, line feed, vertical tab,
/// form feed and carriage return.
pub open spec fn is_space(b: u8) -> bool {
    b == 32 || (9 <= b && b <= 13)
}

/// Where the run of separators other than line feed that starts at `i` ends.
pub open spec fn skip_blanks(s: Seq<u8>, i: int) -> int
    decreases s.len() - i,
{
    if 0 <= i < s.len() && is_space(s[i]) && s[i] != 10 {
        skip_blanks(s, i + 1)
    } else {
        i
    }
}

/// Where the run of bytes that are no separators, starting at `i`, ends.
pub open spec fn word_end(s: Seq<u8>, i: int) -> int
    decreases s.len() - i,
{
    if 0 <= i < s.len() && !is_space(s[i]) {
        word_end(s, i + 1)
    } else {
        i
    }
}

/// Where the line that holds position `i` ends: at the next line feed, or
/// at the end of the text.
pub open spec fn line_end(s: Seq<u8>, i: int) -> int
    decreases s.len() - i,
{
    if 0 <= i < s.len() && s[i] != 10 {
        line_end(s, i + 1)
    } else {
        i
    }
}

/// The words between position `i` and the end of its line.
pub open spec fn line_words(s: Seq<u8>, i: int) -> Seq<Seq<u8>>
    decreases s.len() - i,
{
    let a = skip_blanks(s, i);
    let b = word_end(s, a);
    if i <= a < b <= s.len() {
        seq![s.subrange(a, b)] + line_words(s, b)
    } else {
        Seq::empty()
    }
}

/// The lines from position `i` on, each as its words, up to the end of the
/// text or to the first line without a word.
pub open spec fn lines_from(s: Seq<u8>, i: int) -> Seq<Seq<Seq<u8>>>
    decreases s.len() - i,
{
    if 0 <= i < s.len() {
        let ws = line_words(s, i);
        let e = line_end(s, i);
        if ws.len() == 0 || e < i {
            Seq::empty()
        } else if e >= s.len() {
            seq![ws]
        } else {
            seq![ws] + lines_from(s, e + 1)
        }
    } else {
        Seq::empty()
    }
}

/// The words of a line as byte sequences.
pub open spec fn word_seq(ws: Seq<Vec<u8>>) -> Seq<Seq<u8>> {
    Seq::new(ws.len(), |i: int| ws[i]@)
}

/// The lines of a text as sequences of words.
pub open spec fn line_seq(ls: Seq<Vec<Vec<u8>>>) -> Seq<Seq<Seq<u8>>> {
    Seq::new(ls.len(), |i: int| word_seq(ls[i]@))
}

/// Whether the byte separates literals.
pub fn space(b: u8) -> (r: bool)
    ensures
        r == is_space(b),
{
    b == 32 || (9 <= b && b <= 13)
}

/// Whether the line holds no literal: every byte is a separator.
pub fn blank_line(line: &[u8]) -> (r: bool)
    ensures
        r == forall|i: int| 0 <= i < line@.len() ==> is_space(#[trigger] line@[i]),
{
    let mut i: usize = 0;
    while i < line.len()
        invariant
            0 <= i <= line@.len(),
            forall|j: int| 0 <= j < i ==> is_space(#[trigger] line@[j]),
        decreases line@.len() - i,
    {
        if !space(line[i]) {
            return false;
        }
        i += 1;
    }
    true
}

/// Split the text into lines and each line into words, up to the end of
/// the text or to the first line without a word.
pub fn read_lines(input: &[u8]) -> (lines: Vec<Vec<Vec<u8>>>)
    ensures
        line_seq(lines@) == lines_from(input@, 0),
{
    let ghost s = input@;
    let n = input.len();
    let mut lines: Vec<Vec<Vec<u8>>> = Vec::new();
    let mut i: usize = 0;
    let mut done = false;
    proof {
        assert(line_seq(lines@) + lines_from(s, 0) =~= lines_from(s, 0));
    }
    while i < n && !done
        invariant
            s == input@,
            n == s.len(),
            0 <= i <= n,
            done ==> line_seq(lines@) == lines_from(s, 0),
            !done ==> line_seq(lines@) + lines_from(s, i as int) == lines_from(s, 0),
        decreases n - i, if done { 0int } else { 1int },
    {
        let mut words: Vec<Vec<u8>> = Vec::new();
        let ghost start = i as int;
        proof {
            assert(word_seq(words@) + line_words(s, start) =~= line_words(s, start));
        }
        while i < n && input[i] != 10
            invariant
                s == input@,
                n == s.len(),
                0 <= start <= i <= n,
                words@.len() > 0 ==> start < i,
                word_seq(words@) + line_words(s, i as int) == line_words(s, start),
                line_end(s, i as int) == line_end(s, start),
            decreases n - i,
        {
            if space(input[i]) {
                i += 1;
            } else {
                let ghost a = i as int;
                let mut word: Vec<u8> = Vec::new();
                proof {
                    assert(word@ =~= s.subrange(a, a));
                }
                while i < n && !space(input[i])
                    invariant
                        s == input@,
                        n == s.len(),
                        0 <= a <= i <= n,
                        a < n,
                        !is_space(s[a]),
                        word@ == s.subrange(a, i as int),
                        word_end(s, i as int) == word_end(s, a),
                        line_end(s, i as int) == line_end(s, a),
                    decreases n - i,
                {
                    word.push(input[i]);
                    proof {
                        assert(word@ =~= s.subrange(a, i + 1));
                    }
                    i += 1;
                }
                let ghost before = words@;
                words.push(word);
                proof {
                    assert(skip_blanks(s, a) == a);
                    assert(word_end(s, a) == i);
                    assert(line_words(s, a) == seq![s.subrange(a, i as int)] + line_words(
                        s,
                        i as int,
                    ));
                    assert(word_seq(words@) =~= word_seq(before).push(s.subrange(a, i as int)));
                    assert(word_seq(words@) + line_words(s, i as int) =~= word_seq(before)
                        + line_words(s, a));
                }
            }
        }
        proof {
            assert(skip_blanks(s, i as int) == i);
            assert(word_end(s, i as int) == i);
            assert(line_words(s, i as int) =~= Seq::<Seq<u8>>::empty());
            assert(word_seq(words@) =~= line_words(s, start));
            assert(line_end(s, start) == i);
        }
        if words.len() == 0 {
            proof {
                assert(lines_from(s, start) =~= Seq::<Seq<Seq<u8>>>::empty());
                assert(line_seq(lines@) =~= lines_from(s, 0));
            }
            done = true;
        } else {
            let ghost before = lines@;
            lines.push(words);
            proof {
                assert(line_seq(lines@) =~= line_seq(before).push(line_words(s, start)));
                if i >= n {
                    assert(lines_from(s, start) == seq![line_words(s, start)]);
                    assert(lines_from(s, i as int) =~= Seq::<Seq<Seq<u8>>>::empty());
                    assert(line_seq(lines@) + lines_from(s, i as int) =~= line_seq(before)
                        + lines_from(s, start));
                } else {
                    assert(lines_from(s, start) == seq![line_words(s, start)] + lines_from(
                        s,
                        i + 1,
                    ));
                    assert(line_seq(lines@) + lines_from(s, i + 1) =~= line_seq(before)
                        + lines_from(s, start));
                }
            }
            if i < n {
                i += 1;
            }
        }
    }
    proof {
        if !done {
            assert(lines_from(s, i as int) =~= Seq::<Seq<Seq<u8>>>::empty());
            assert(line_seq(lines@) =~= lines_from(s, 0));
        }
    }
    lines
}

} // verus!
