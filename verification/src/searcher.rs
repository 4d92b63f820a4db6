//! The binary search as a machine that asks for one read at a time: it
//! names the byte offset to seek to, or asks to read on from where the last
//! read ended, is handed back the bytes up to and including the next `\n`,
//! and decides the next read or the answer. Each probe takes one seek. A caller that owns the file does the reading, so the search reads
//! only the few lines that it probes.
use vstd::prelude::*;
use crate::error::Error;
use crate::file::{bytes_string, chunk, lemma_line_end};
use crate::laws::{bit_length, probe_count};
use crate::model::{ErrorModel, ValueModel, value_lt};
use crate::search::{get_column, probe, probe_line, probe_start, search_from, search_spec};
use crate::value::Value;

verus! {

/// What the search asks for next.
pub enum Step {
    /// Seek to this byte offset, read from there up to and including the
    /// next `\n` (or to the end of the file), and hand the bytes to
    /// `Searcher::resume`.
    ReadFrom(u64),
    /// Read on, without seeking, from where the last read ended up to and
    /// including the next `\n` (or to the end of the file), and hand the
    /// bytes to `Searcher::resume`.
    ReadNext,
    /// The search is over: the start of the line found, or the error met.
    Finished(Result<Option<u64>, Error>),
}

/// The read that a searcher waits for.
enum Stage {
    /// The read from the byte before the probed position, whose length
    /// gives where the next line starts.
    Skip(u64),
    /// The read of the line that starts at the second offset, for the probe
    /// at the first.
    Line(u64, u64),
    /// No read: the search is over.
    Done,
}

/// A binary search in progress over a file of `file_size` bytes, sorted on
/// the key in column `position`.
pub struct Searcher<'a> {
    file_size: u64,
    separator: char,
    target: &'a Value,
    position: usize,
    is_numeric: bool,
    /// The positions still to probe are `left..hi`.
    left: u64,
    hi: u64,
    /// The start of the last line met whose key equals the target.
    found: Option<u64>,
    stage: Stage,
    /// The reads asked for so far.
    reads: Ghost<nat>,
    /// The reads asked for so far that start with a seek.
    seeks: Ghost<nat>,
}

/// A found offset as the contracts see it.
pub open spec fn offset_view(o: Option<u64>) -> Option<int> {
    match o {
        Some(s) => Some(s as int),
        None => None,
    }
}

/// A search result as the contracts see it.
pub open spec fn search_outcome(r: Result<Option<u64>, Error>) -> Result<Option<int>, ErrorModel> {
    match r {
        Ok(o) => Ok(offset_view(o)),
        Err(e) => Err(e@),
    }
}

impl<'a> Searcher<'a> {
    /// The number of reads asked for so far.
    pub closed spec fn reads_made(self) -> nat {
        self.reads@
    }

    /// The number of reads asked for so far that start with a seek: one per
    /// probe.
    pub closed spec fn seeks_made(self) -> nat {
        self.seeks@
    }

    /// The offset of the read that the searcher waits for.
    pub closed spec fn pending(self) -> int {
        match self.stage {
            Stage::Skip(mid) => mid - 1,
            Stage::Line(_, start) => start as int,
            Stage::Done => 0,
        }
    }

    /// A measure that every step lowers.
    pub closed spec fn progress(self) -> nat {
        let width: nat = if self.hi > self.left {
            (self.hi - self.left) as nat
        } else {
            0
        };
        3 * width + match self.stage {
            Stage::Skip(_) => 2nat,
            Stage::Line(_, _) => 1nat,
            Stage::Done => 0nat,
        }
    }

    /// The position that the current probe is at.
    closed spec fn mid(self) -> int {
        self.left + (self.hi - 1 - self.left) / 2
    }

    /// The searcher searches `f` for `target` with these settings, between
    /// two probes: what the rest of the search gives is what the whole
    /// search gives, and the reads made and still to make stay within the
    /// bound.
    closed spec fn settled(
        self,
        f: Seq<u8>,
        sep: char,
        target: ValueModel,
        position: int,
        is_numeric: bool,
    ) -> bool {
        &&& self.separator == sep
        &&& self.target@ == target
        &&& self.position == position
        &&& self.is_numeric == is_numeric
        &&& f.len() == self.file_size
        &&& self.left <= self.hi <= self.file_size
        &&& search_spec(f, sep, target, position, is_numeric) == search_from(
            f,
            sep,
            target,
            position,
            is_numeric,
            self.left as int,
            self.hi - 1,
            offset_view(self.found),
        )
        &&& self.reads@ + 2 * probe_count(
            f,
            sep,
            target,
            position,
            is_numeric,
            self.left as int,
            self.hi - 1,
        ) <= 2 * bit_length(f.len())
        &&& self.seeks@ + probe_count(
            f,
            sep,
            target,
            position,
            is_numeric,
            self.left as int,
            self.hi - 1,
        ) <= bit_length(f.len())
    }

    /// The searcher searches `f` for `target` with these settings, and waits
    /// for a read of `f`.
    pub closed spec fn searches(
        self,
        f: Seq<u8>,
        sep: char,
        target: ValueModel,
        position: int,
        is_numeric: bool,
    ) -> bool {
        &&& self.separator == sep
        &&& self.target@ == target
        &&& self.position == position
        &&& self.is_numeric == is_numeric
        &&& f.len() == self.file_size
        &&& self.left < self.hi <= self.file_size
        &&& search_spec(f, sep, target, position, is_numeric) == search_from(
            f,
            sep,
            target,
            position,
            is_numeric,
            self.left as int,
            self.hi - 1,
            offset_view(self.found),
        )
        &&& self.reads@ + 2 * probe_count(
            f,
            sep,
            target,
            position,
            is_numeric,
            self.left as int,
            self.hi - 1,
        ) - 2 + (if self.stage is Skip {
            1int
        } else {
            0int
        }) <= 2 * bit_length(f.len())
        &&& self.seeks@ + probe_count(
            f,
            sep,
            target,
            position,
            is_numeric,
            self.left as int,
            self.hi - 1,
        ) - 1 <= bit_length(f.len())
        &&& match self.stage {
            Stage::Skip(mid) => mid == self.mid() && mid > 0,
            Stage::Line(mid, start) => {
                &&& mid == self.mid()
                &&& start == probe_start(f, mid as int)
                &&& start < f.len()
            },
            Stage::Done => false,
        }
    }

    /// Starts the next probe, or ends the search where no position is left.
    fn next_probe(&mut self) -> (r: Step)
        ensures
            final(self).separator == old(self).separator,
            final(self).target == old(self).target,
            final(self).position == old(self).position,
            final(self).is_numeric == old(self).is_numeric,
            forall|f: Seq<u8>, sep: char, t: ValueModel, pos: int, num: bool| #[trigger]
                old(self).settled(f, sep, t, pos, num) ==> match r {
                    Step::ReadFrom(off) => {
                        &&& off < f.len()
                        &&& final(self).searches(f, sep, t, pos, num)
                        &&& off == final(self).pending()
                        &&& final(self).reads@ == old(self).reads@ + 1
                        &&& final(self).seeks@ == old(self).seeks@ + 1
                        &&& final(self).progress() <= 3 * (old(self).hi - old(self).left) + 2
                    },
                    Step::Finished(res) => {
                        &&& search_outcome(res) == search_spec(f, sep, t, pos, num)
                        &&& final(self).reads@ <= 2 * bit_length(f.len())
                        &&& final(self).seeks@ <= bit_length(f.len())
                    },
                    Step::ReadNext => false,
                },
    {
        if self.left < self.hi {
            let mid = self.left + (self.hi - 1 - self.left) / 2;
            self.reads = Ghost((self.reads@ + 1) as nat);
            self.seeks = Ghost((self.seeks@ + 1) as nat);
            if mid == 0 {
                self.stage = Stage::Line(0, 0);
                Step::ReadFrom(0)
            } else {
                self.stage = Stage::Skip(mid);
                Step::ReadFrom(mid - 1)
            }
        } else {
            self.stage = Stage::Done;
            Step::Finished(Ok(self.found))
        }
    }

    /// Starts a search of a file of `file_size` bytes for the first line
    /// whose key in column `position` (fields separated by `separator`)
    /// equals `target`; gives the searcher and its first step.
    pub fn new(
        file_size: u64,
        separator: char,
        target: &'a Value,
        position: usize,
        is_numeric: bool,
    ) -> (r: (Searcher<'a>, Step))
        ensures
            forall|f: Seq<u8>| #[trigger]
                f.len() == file_size ==> match r.1 {
                    Step::ReadFrom(off) => {
                        &&& off < f.len()
                        &&& r.0.searches(f, separator, target@, position as int, is_numeric)
                        &&& off == r.0.pending()
                        &&& r.0.reads_made() == 1
                        &&& r.0.seeks_made() == 1
                    },
                    Step::ReadNext => false,
                    Step::Finished(res) => search_outcome(res) == search_spec(
                        f,
                        separator,
                        target@,
                        position as int,
                        is_numeric,
                    ),
                },
    {
        let mut s = Searcher {
            file_size,
            separator,
            target,
            position,
            is_numeric,
            left: 0,
            hi: file_size,
            found: None,
            stage: Stage::Done,
            reads: Ghost(0),
            seeks: Ghost(0),
        };
        let ghost s0 = s;
        let step = s.next_probe();
        proof {
            assert forall|f: Seq<u8>| #[trigger] f.len() == file_size implies s0.settled(
                f,
                separator,
                target@,
                position as int,
                is_numeric,
            ) by {
                if f.len() > 0 {
                    crate::laws::lemma_probe_count_bound(
                        f,
                        separator,
                        target@,
                        position as int,
                        is_numeric,
                        0,
                        f.len() - 1,
                    );
                }
            }
        }
        (s, step)
    }

    /// Takes the bytes of the read that the searcher asked for, and gives
    /// the next step.
    pub fn resume(&mut self, bytes: &[u8]) -> (r: Step)
        ensures
            forall|f: Seq<u8>, sep: char, t: ValueModel, pos: int, num: bool| #[trigger]
                old(self).searches(f, sep, t, pos, num) && bytes@ == chunk(f, old(self).pending())
                    ==> match r {
                    Step::ReadFrom(off) => {
                        &&& off < f.len()
                        &&& final(self).searches(f, sep, t, pos, num)
                        &&& off == final(self).pending()
                        &&& final(self).reads_made() == old(self).reads_made() + 1
                        &&& final(self).seeks_made() == old(self).seeks_made() + 1
                        &&& final(self).progress() < old(self).progress()
                    },
                    Step::ReadNext => {
                        &&& final(self).pending() == old(self).pending() + bytes@.len()
                        &&& final(self).pending() < f.len()
                        &&& final(self).searches(f, sep, t, pos, num)
                        &&& final(self).reads_made() == old(self).reads_made() + 1
                        &&& final(self).seeks_made() == old(self).seeks_made()
                        &&& final(self).progress() < old(self).progress()
                    },
                    Step::Finished(res) => {
                        &&& search_outcome(res) == search_spec(f, sep, t, pos, num)
                        &&& final(self).reads_made() <= 2 * bit_length(f.len())
                        &&& final(self).seeks_made() <= bit_length(f.len())
                    },
                },
    {
        let ghost s0 = *self;
        match self.stage {
            Stage::Skip(mid) => {
                let n = self.file_size;
                let before = if mid > 0 {
                    mid - 1
                } else {
                    0
                };
                let len = bytes.len() as u64;
                let start = if before >= n || len >= n - before {
                    n
                } else {
                    before + len
                };
                if start >= n {
                    self.hi = mid;
                    let ghost s1 = *self;
                    let step = self.next_probe();
                    proof {
                        assert forall|f: Seq<u8>, sep: char, t: ValueModel, pos: int, num: bool|
                            #[trigger] s0.searches(f, sep, t, pos, num) && bytes@ == chunk(
                                f,
                                s0.pending(),
                            ) implies s1.settled(f, sep, t, pos, num) by {
                            lemma_line_end(f, mid - 1);
                            assert(probe_line(f, mid as int) is None);
                        }
                    }
                    step
                } else {
                    self.stage = Stage::Line(mid, start);
                    self.reads = Ghost((self.reads@ + 1) as nat);
                    proof {
                        assert forall|f: Seq<u8>, sep: char, t: ValueModel, pos: int, num: bool|
                            #[trigger] s0.searches(f, sep, t, pos, num) && bytes@ == chunk(
                                f,
                                s0.pending(),
                            ) implies self.searches(f, sep, t, pos, num) by {
                            lemma_line_end(f, mid - 1);
                        }
                    }
                    Step::ReadNext
                }
            },
            Stage::Line(mid, start) => {
                let key = match bytes_string(bytes) {
                    None => {
                        self.stage = Stage::Done;
                        return Step::Finished(Err(Error::InvalidUtf8));
                    },
                    Some(line) => get_column(line.as_str(), self.separator, self.position, self.is_numeric),
                };
                match key {
                    Err(e) => {
                        self.stage = Stage::Done;
                        Step::Finished(Err(e))
                    },
                    Ok(v) => {
                        if v == *self.target {
                            self.found = Some(start);
                            self.hi = mid;
                        } else if v < *self.target {
                            self.left = if mid < self.hi {
                                mid + 1
                            } else {
                                self.hi
                            };
                        } else {
                            self.hi = mid;
                        }
                        let ghost s1 = *self;
                        let step = self.next_probe();
                        proof {
                            assert forall|f: Seq<u8>, sep: char, t: ValueModel, pos: int, num: bool|
                                #[trigger] s0.searches(f, sep, t, pos, num) && bytes@ == chunk(
                                    f,
                                    s0.pending(),
                                ) implies s1.settled(f, sep, t, pos, num) by {
                                lemma_line_end(f, start as int);
                                assert(probe_line(f, mid as int) == Some(
                                    (start as int, crate::file::line_end(f, start as int)),
                                ));
                            }
                        }
                        step
                    },
                }
            },
            Stage::Done => Step::Finished(Ok(None)),
        }
    }
}

} // verus!
