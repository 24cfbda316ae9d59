//! Generation parameters, the difficulty presets, and the word-list
//! reader.

use vstd::prelude::*;

verus! {

/// Strips one trailing carriage return, as a line feed's companion.
pub open spec fn strip_cr(l: Seq<char>) -> Seq<char> {
    if l.len() > 0 && l.last() == '\r' {
        l.drop_last()
    } else {
        l
    }
}

/// Splits on line feeds, stripping a carriage return before each one;
/// `cur` is the part of the current line already consumed. A final line
/// is reported only when nonempty, so one trailing terminator adds no
/// empty line.
pub open spec fn split_acc(s: Seq<char>, cur: Seq<char>) -> Seq<Seq<char>>
    decreases s.len(),
{
    if s.len() == 0 {
        if cur.len() == 0 {
            Seq::empty()
        } else {
            seq![cur]
        }
    } else if s[0] == '\n' {
        seq![strip_cr(cur)] + split_acc(s.drop_first(), Seq::empty())
    } else {
        split_acc(s.drop_first(), cur.push(s[0]))
    }
}

/// The lines of a text, in order.
pub open spec fn split_lines(s: Seq<char>) -> Seq<Seq<char>> {
    split_acc(s, Seq::empty())
}

/// Reads a word list: one pattern per line, case kept as given.
pub fn parse_words(contents: &str) -> (r: Vec<String>)
    ensures
        r@.len() == split_lines(contents@).len(),
        forall|t: int| 0 <= t < r@.len() ==> (#[trigger] r@[t])@ == split_lines(contents@)[t],
{
    let n = contents.unicode_len();
    let mut r: Vec<String> = Vec::new();
    let mut start: usize = 0;
    let mut i: usize = 0;
    proof {
        assert(contents@.skip(0) =~= contents@);
        assert(contents@.subrange(0, 0) =~= Seq::<char>::empty());
    }
    while i < n
        invariant
            start <= i <= n,
            n == contents@.len(),
            r@.len() >= 0,
            split_lines(contents@) == r@.map_values(|w: String| w@) + split_acc(
                contents@.skip(i as int),
                contents@.subrange(start as int, i as int),
            ),
        decreases n - i,
    {
        let c = contents.get_char(i);
        let ghost rest = contents@.skip(i as int);
        let ghost cur = contents@.subrange(start as int, i as int);
        proof {
            assert(rest[0] == contents@[i as int]);
            assert(rest.drop_first() =~= contents@.skip(i as int + 1));
        }
        if c == '\n' {
            let end = if i > start && contents.get_char(i - 1) == '\r' {
                i - 1
            } else {
                i
            };
            let line = contents.substring_char(start, end).to_owned();
            proof {
                assert(line@ =~= strip_cr(cur)) by {
                    if i > start && contents@[i as int - 1] == '\r' {
                        assert(cur.last() == contents@[i as int - 1]);
                        assert(cur.drop_last() =~= contents@.subrange(
                            start as int,
                            i as int - 1,
                        ));
                    } else {
                        if cur.len() > 0 {
                            assert(cur.last() == contents@[i as int - 1]);
                        }
                    }
                }
            }
            let ghost old_r = r@;
            r.push(line);
            proof {
                assert(r@.map_values(|w: String| w@) =~= old_r.map_values(|w: String| w@).push(
                    line@,
                ));
                assert(contents@.subrange(i as int + 1, i as int + 1) =~= Seq::<char>::empty());
                assert(old_r.map_values(|w: String| w@) + (seq![strip_cr(cur)] + split_acc(
                    rest.drop_first(),
                    Seq::empty(),
                )) =~= r@.map_values(|w: String| w@) + split_acc(
                    contents@.skip(i as int + 1),
                    contents@.subrange(i as int + 1, i as int + 1),
                ));
            }
            start = i + 1;
        } else {
            proof {
                assert(cur.push(contents@[i as int]) =~= contents@.subrange(
                    start as int,
                    i as int + 1,
                ));
            }
        }
        i = i + 1;
    }
    proof {
        assert(contents@.skip(n as int).len() == 0);
    }
    if start < n {
        let line = contents.substring_char(start, n).to_owned();
        let ghost old_r = r@;
        r.push(line);
        proof {
            assert(line@ == contents@.subrange(start as int, n as int));
            assert(contents@.subrange(start as int, n as int).len() > 0);
            assert(r@.map_values(|w: String| w@) =~= old_r.map_values(|w: String| w@).push(
                line@,
            ));
            assert(old_r.map_values(|w: String| w@) + seq![line@] =~= r@.map_values(
                |w: String| w@,
            ));
            assert(split_lines(contents@) =~= r@.map_values(|w: String| w@));
        }
    } else {
        proof {
            assert(contents@.subrange(start as int, n as int).len() == 0);
            assert(split_lines(contents@) =~= r@.map_values(|w: String| w@));
        }
    }
    proof {
        assert(forall|t: int|
            0 <= t < r@.len() ==> (#[trigger] r@[t])@ == r@.map_values(|w: String| w@)[t]);
    }
    r
}

/// Copies a word list, spelling the same words.
pub fn copy_words(words: &Vec<String>) -> (r: Vec<String>)
    ensures
        r@.len() == words@.len(),
        forall|i: int| 0 <= i < words@.len() ==> (#[trigger] r@[i])@ == words@[i]@,
        r.deep_view() == words.deep_view(),
{
    let mut r: Vec<String> = Vec::new();
    let mut i: usize = 0;
    while i < words.len()
        invariant
            i <= words@.len(),
            r@.len() == i,
            forall|k: int| 0 <= k < i ==> (#[trigger] r@[k])@ == words@[k]@,
        decreases words@.len() - i,
    {
        r.push(words[i].clone());
        i = i + 1;
    }
    proof {
        assert(r.deep_view() =~= words.deep_view());
    }
    r
}

/// Everything maze generation is tuned by.
pub struct Settings {
    pub height: usize,
    pub width: usize,
    pub words: Vec<String>,
    pub seed: u64,
    /// chance, in thousandths, that the fill consults the dictionary
    pub word_prob_permille: u32,
    pub wall_nodes: usize,
    pub nb_power_ups: usize,
    pub steps: usize,
    /// the route to the exit must be longer than (height + width) / this
    pub min_path_div: usize,
}

/// The three presets a game can be started with.
#[derive(Debug, Clone, Copy, PartialEq, Eq, Default)]
pub enum Difficulty {
    Easy,
    #[default]
    Normal,
    Hard,
}

impl Settings {
    /// The preset table for each difficulty, over the given word list;
    /// the seed is drawn fresh from the thread's generator.
    pub fn new(difficulty: Difficulty, words: Vec<String>) -> (s: Settings)
        ensures
            s.words == words,
            s.min_path_div == 3usize,
            difficulty is Easy ==> s.height == 10usize && s.width == 10usize && s.steps == 10usize
                && s.word_prob_permille == 1000u32 && s.wall_nodes == 3usize && s.nb_power_ups
                == 10usize,
            difficulty is Normal ==> s.height == 50usize && s.width == 50usize && s.steps
                == 20usize && s.word_prob_permille == 1000u32 && s.wall_nodes == 10usize
                && s.nb_power_ups == 40usize,
            difficulty is Hard ==> s.height == 80usize && s.width == 80usize && s.steps == 20usize
                && s.word_prob_permille == 900u32 && s.wall_nodes == 20usize && s.nb_power_ups
                == 50usize,
    {
        let seed: u64 = rand::random();
        match difficulty {
            Difficulty::Easy => Settings {
                height: 10,
                width: 10,
                words,
                seed,
                word_prob_permille: 1000,
                wall_nodes: 3,
                nb_power_ups: 10,
                steps: 10,
                min_path_div: 3,
            },
            Difficulty::Normal => Settings {
                height: 50,
                width: 50,
                words,
                seed,
                word_prob_permille: 1000,
                wall_nodes: 10,
                nb_power_ups: 40,
                steps: 20,
                min_path_div: 3,
            },
            Difficulty::Hard => Settings {
                height: 80,
                width: 80,
                words,
                seed,
                word_prob_permille: 900,
                wall_nodes: 20,
                nb_power_ups: 50,
                steps: 20,
                min_path_div: 3,
            },
        }
    }

    /// Applies the command line's overrides: each value that was given
    /// replaces the preset's, everything else stays.
    pub fn with_overrides(
        self,
        steps: Option<usize>,
        height: Option<usize>,
        width: Option<usize>,
        seed: Option<u64>,
    ) -> (s: Settings)
        ensures
            s.steps == (if steps is Some {
                steps->0
            } else {
                self.steps
            }),
            s.height == (if height is Some {
                height->0
            } else {
                self.height
            }),
            s.width == (if width is Some {
                width->0
            } else {
                self.width
            }),
            s.seed == (if seed is Some {
                seed->0
            } else {
                self.seed
            }),
            s.words == self.words,
            s.word_prob_permille == self.word_prob_permille,
            s.wall_nodes == self.wall_nodes,
            s.nb_power_ups == self.nb_power_ups,
            s.min_path_div == self.min_path_div,
    {
        let mut s = self;
        if let Some(v) = steps {
            s.steps = v;
        }
        if let Some(h) = height {
            s.height = h;
        }
        if let Some(w) = width {
            s.width = w;
        }
        if let Some(sd) = seed {
            s.seed = sd;
        }
        s
    }
}

} // verus!
