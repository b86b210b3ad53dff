//! The lines that the console shows, and where input goes next.
use vstd::prelude::*;

verus! {

/// Relies on `String::pop`: it removes the last character, if there is one.
#[verifier::external_body]
fn pop_char(s: &mut String)
    ensures
        final(s)@ == if old(s)@.len() > 0 {
            old(s)@.drop_last()
        } else {
            old(s)@
        },
{
    s.pop();
}

/// Relies on `String::push_str`: it appends the characters of `t`.
#[verifier::external_body]
fn push_str(s: &mut String, t: &str)
    ensures
        final(s)@ == old(s)@ + t@,
{
    s.push_str(t);
}

/// `lines` after the last character of its first line was dropped, which
/// is how the console makes room once it holds as many lines as it may.
pub open spec fn trim_first(lines: Seq<Seq<char>>) -> Seq<Seq<char>> {
    let first = lines[0];
    lines.update(0, if first.len() > 0 { first.drop_last() } else { first })
}

/// The lines of the console and where input goes.
pub struct ConsoleInfo {
    /// The lines of input, oldest first.
    pub console_lines: Vec<String>,
    /// How many lines the console holds before it makes room.
    pub max_lines: u64,
    /// The index of the line that input goes to.
    pub current_line_index: usize,
}

impl ConsoleInfo {
    /// The lines as character sequences.
    pub open spec fn lines(&self) -> Seq<Seq<char>> {
        self.console_lines@.map_values(|s: String| s@)
    }

    /// A console without lines that holds `max_lines` lines.
    pub fn new(max_lines: u64) -> (r: ConsoleInfo)
        ensures
            r.lines() == Seq::<Seq<char>>::empty(),
            r.max_lines == max_lines,
            r.current_line_index == 0,
    {
        let r = ConsoleInfo { console_lines: Vec::new(), max_lines, current_line_index: 0 };
        proof {
            assert(r.lines() =~= Seq::<Seq<char>>::empty());
        }
        r
    }

    /// Sets how many lines the console holds; values of 20 and below are
    /// ignored.
    pub fn set_max_lines(&mut self, max_lines: u64)
        ensures
            final(self).max_lines == if max_lines > 20 {
                max_lines
            } else {
                old(self).max_lines
            },
            final(self).console_lines == old(self).console_lines,
            final(self).current_line_index == old(self).current_line_index,
    {
        if max_lines > 20 {
            self.max_lines = max_lines;
        }
    }

    /// A copy of line `line_index`, or `None` past the end.
    pub fn get_console_line(&self, line_index: usize) -> (r: Option<String>)
        ensures
            r.is_some() <==> line_index < self.console_lines@.len(),
            r.is_some() ==> r.unwrap()@ == self.lines()[line_index as int],
    {
        if line_index < self.console_lines.len() {
            return Some(self.console_lines[line_index].clone());
        }
        None
    }

    /// Moves input to the next line; once the last line that the console
    /// holds is reached, makes room instead and stays on it.
    pub fn add_new_line(&mut self)
        requires
            old(self).current_line_index < usize::MAX,
            old(self).current_line_index + 1 >= old(self).max_lines ==> old(self).max_lines >= 1
                && old(self).console_lines@.len() >= 1,
        ensures
            final(self).max_lines == old(self).max_lines,
            old(self).current_line_index + 1 < old(self).max_lines ==> {
                &&& final(self).current_line_index == old(self).current_line_index + 1
                &&& final(self).lines() == old(self).lines()
            },
            old(self).current_line_index + 1 >= old(self).max_lines ==> {
                &&& final(self).current_line_index == (old(self).max_lines - 1) as usize
                &&& final(self).lines() == trim_first(old(self).lines())
            },
    {
        if (self.current_line_index as u64) + 1 < self.max_lines {
            self.current_line_index = self.current_line_index + 1;
        } else {
            let ghost before = self.lines();
            pop_char(&mut self.console_lines[0]);
            proof {
                assert(self.lines() =~= trim_first(before));
            }
            self.current_line_index = (self.max_lines - 1) as usize;
        }
    }

    /// Adds `line` as a new line of its own, making room first when the
    /// console is full, and moves input past it.
    pub fn add_console_line(&mut self, line: String)
        requires
            old(self).current_line_index < usize::MAX,
            old(self).max_lines >= 1,
        ensures
            final(self).max_lines == old(self).max_lines,
            ({
                let full = old(self).console_lines@.len() >= old(self).max_lines;
                let added = (if full {
                    trim_first(old(self).lines())
                } else {
                    old(self).lines()
                }).push(line@);
                &&& old(self).current_line_index + 1 < old(self).max_lines ==> {
                    &&& final(self).current_line_index == old(self).current_line_index + 1
                    &&& final(self).lines() == added
                }
                &&& old(self).current_line_index + 1 >= old(self).max_lines ==> {
                    &&& final(self).current_line_index == (old(self).max_lines - 1) as usize
                    &&& final(self).lines() == trim_first(added)
                }
            }),
    {
        let ghost before = self.lines();
        let ghost line_view = line@;
        if self.console_lines.len() as u64 >= self.max_lines {
            pop_char(&mut self.console_lines[0]);
            proof {
                assert(self.lines() =~= trim_first(before));
            }
        }
        let ghost mid = self.lines();
        self.console_lines.push(line);
        proof {
            assert(self.lines() =~= mid.push(line_view));
        }
        self.add_new_line();
    }

    /// Appends `line` to the line that input goes to, or, where that line
    /// does not exist yet, adds it as a new line, making room first when the
    /// console is full.
    pub fn add_to_current_line(&mut self, line: String)
        requires
            old(self).current_line_index < usize::MAX,
            old(self).console_lines@.len() != old(self).current_line_index + 1
                && old(self).current_line_index + 1 >= old(self).max_lines ==> old(self).console_lines@.len() >= 1,
        ensures
            final(self).max_lines == old(self).max_lines,
            final(self).current_line_index == old(self).current_line_index,
            old(self).console_lines@.len() == old(self).current_line_index + 1 ==> final(self).lines()
                == old(self).lines().update(
                old(self).current_line_index as int,
                old(self).lines()[old(self).current_line_index as int] + line@,
            ),
            old(self).console_lines@.len() != old(self).current_line_index + 1 ==> final(self).lines()
                == (if old(self).current_line_index + 1 >= old(self).max_lines {
                trim_first(old(self).lines())
            } else {
                old(self).lines()
            }).push(line@),
    {
        let ghost before = self.lines();
        let ghost line_view = line@;
        let index = self.current_line_index;
        if self.console_lines.len() == index + 1 {
            push_str(&mut self.console_lines[index], line.as_str());
            proof {
                assert(self.lines() =~= before.update(index as int, before[index as int] + line_view));
            }
        } else {
            if (index as u64) + 1 >= self.max_lines {
                pop_char(&mut self.console_lines[0]);
                proof {
                    assert(self.lines() =~= trim_first(before));
                }
            }
            let ghost mid = self.lines();
            self.console_lines.push(line);
            proof {
                assert(self.lines() =~= mid.push(line_view));
            }
        }
    }
}

} // verus!
