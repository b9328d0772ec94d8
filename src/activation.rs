//! Socket activation by a service manager: which inherited descriptors the
//! process owns and by what names. Reading and unsetting the environment and
//! marking descriptors close-on-exec are the caller's part.
use vstd::prelude::*;

use crate::name::{split_at_char, split_by, texts};

verus! {

/// The first inherited descriptor.
pub const LISTEN_FDS_START: u32 = 3;

pub open spec fn is_digit(c: char) -> bool {
    '0' <= c && c <= '9'
}

pub open spec fn digit_of(c: char) -> int {
    (c as int) - ('0' as int)
}

/// The value of a string of decimal digits.
pub open spec fn decimal_value(s: Seq<char>) -> int
    decreases s.len(),
{
    if s.len() == 0 {
        0
    } else {
        decimal_value(s.drop_last()) * 10 + digit_of(s.last())
    }
}

pub open spec fn all_digits(s: Seq<char>) -> bool {
    forall|i: int| 0 <= i < s.len() ==> is_digit(s[i])
}

/// The digits of an unsigned decimal: all of `s`, or all after a leading
/// `+`.
pub open spec fn unsigned_digits(s: Seq<char>) -> Seq<char> {
    if s.len() > 0 && s[0] == '+' {
        s.subrange(1, s.len() as int)
    } else {
        s
    }
}

/// The `u32` that `s` spells, as `str::parse::<u32>` reads it.
pub open spec fn u32_of(s: Seq<char>) -> Option<u32> {
    let d = unsigned_digits(s);
    if d.len() > 0 && all_digits(d) && decimal_value(d) <= u32::MAX {
        Some(decimal_value(d) as u32)
    } else {
        None
    }
}

proof fn lemma_decimal_nonneg(s: Seq<char>)
    requires
        all_digits(s),
    ensures
        decimal_value(s) >= 0,
    decreases s.len(),
{
    if s.len() > 0 {
        lemma_decimal_nonneg(s.drop_last());
    }
}

proof fn lemma_decimal_grows(s: Seq<char>)
    requires
        s.len() > 0,
        all_digits(s),
    ensures
        decimal_value(s) >= decimal_value(s.drop_last()),
{
    assert(is_digit(s[s.len() - 1]));
    assert(all_digits(s.drop_last()));
    lemma_decimal_nonneg(s.drop_last());
}

/// Reads an unsigned decimal that fits in `u32`.
pub fn parse_u32(s: &str) -> (r: Option<u32>)
    ensures
        r == u32_of(s@),
{
    let n = s.unicode_len();
    let mut start: usize = 0;
    if n > 0 && s.get_char(0) == '+' {
        start = 1;
    }
    let ghost d = unsigned_digits(s@);
    assert(d =~= s@.subrange(start as int, n as int));
    if start == n {
        return None;
    }
    let mut value: u64 = 0;
    let mut i = start;
    assert(d.subrange(0, 0) =~= Seq::<char>::empty());
    while i < n
        invariant
            n == s@.len(),
            start <= i <= n,
            d == s@.subrange(start as int, n as int),
            d == unsigned_digits(s@),
            all_digits(d.subrange(0, i - start)),
            value == decimal_value(d.subrange(0, i - start)),
            value <= u32::MAX,
        decreases n - i,
    {
        let c = s.get_char(i);
        let ghost pre = d.subrange(0, i - start);
        let ghost cur = d.subrange(0, i - start + 1);
        assert(cur.drop_last() =~= pre);
        assert(cur.last() == c);
        if !('0' <= c && c <= '9') {
            assert(!all_digits(d)) by {
                assert(d[i - start] == c);
            }
            assert(u32_of(s@) is None);
            return None;
        }
        let digit = (c as u32 - '0' as u32) as u64;
        let next = value * 10 + digit;
        assert(next == decimal_value(cur));
        if next > 4294967295 {
            proof {
                assert(all_digits(cur));
                lemma_prefix_bound(d, i - start + 1);
                assert(u32_of(s@) is None);
            }
            return None;
        }
        value = next;
        i += 1;
    }
    assert(d.subrange(0, n - start) =~= d);
    Some(value as u32)
}

/// A prefix's value bounds the value of the whole digit string.
proof fn lemma_prefix_bound(d: Seq<char>, k: int)
    requires
        0 <= k <= d.len(),
        all_digits(d.subrange(0, k)),
    ensures
        all_digits(d) ==> decimal_value(d) >= decimal_value(d.subrange(0, k)),
    decreases d.len() - k,
{
    if k < d.len() && all_digits(d) {
        let next = d.subrange(0, k + 1);
        assert(next.drop_last() =~= d.subrange(0, k));
        assert(all_digits(next));
        lemma_decimal_grows(next);
        lemma_prefix_bound(d, k + 1);
    } else if k == d.len() {
        assert(d.subrange(0, k) =~= d);
    }
}

/// Why the inherited descriptors could not be taken.
#[derive(Clone, Copy, Debug, PartialEq, Eq, Structural)]
pub enum ActivationError {
    /// `LISTEN_PID` is not an integer.
    InvalidPid,
    /// `LISTEN_FDS` is not an integer.
    InvalidFds,
    /// The descriptor numbers do not fit.
    FdCountOverflow,
    /// `LISTEN_FDNAMES` does not name each descriptor exactly once.
    NamesMismatch,
}

/// A range of descriptor numbers, `start` included, `end` excluded.
#[derive(Clone, Copy, Debug, PartialEq, Eq, Structural)]
pub struct FdRange {
    pub start: i32,
    pub end: i32,
}

pub open spec fn fd_range_of(
    listen_pid: Option<Seq<char>>,
    pid: u32,
    listen_fds: Option<Seq<char>>,
) -> Result<FdRange, ActivationError> {
    let none = FdRange { start: 0, end: 0 };
    match listen_pid {
        None => Ok(none),
        Some(p) => match u32_of(p) {
            None => Err(ActivationError::InvalidPid),
            Some(v) => if v != pid {
                Ok(none)
            } else {
                match listen_fds {
                    None => Ok(none),
                    Some(f) => match u32_of(f) {
                        None => Err(ActivationError::InvalidFds),
                        Some(n) => if 3 + n > i32::MAX {
                            Err(ActivationError::FdCountOverflow)
                        } else {
                            Ok(FdRange { start: 3, end: (3 + n) as i32 })
                        },
                    },
                }
            },
        },
    }
}

/// The descriptors passed to process `pid`: none where `LISTEN_PID` is unset
/// or names another process, or `LISTEN_FDS` is unset; else `LISTEN_FDS` of
/// them from descriptor 3 on.
pub fn listen_fds(listen_pid: Option<&str>, pid: u32, fd_count: Option<&str>) -> (r: Result<
    FdRange,
    ActivationError,
>)
    ensures
        r == fd_range_of(
            match listen_pid {
                Some(s) => Some(s@),
                None => None,
            },
            pid,
            match fd_count {
                Some(s) => Some(s@),
                None => None,
            },
        ),
{
    let none = FdRange { start: 0, end: 0 };
    let p = match listen_pid {
        None => {
            return Ok(none);
        },
        Some(s) => s,
    };
    let v = match parse_u32(p) {
        None => {
            return Err(ActivationError::InvalidPid);
        },
        Some(v) => v,
    };
    if v != pid {
        return Ok(none);
    }
    let f = match fd_count {
        None => {
            return Ok(none);
        },
        Some(s) => s,
    };
    let n = match parse_u32(f) {
        None => {
            return Err(ActivationError::InvalidFds);
        },
        Some(n) => n,
    };
    if n as u64 + LISTEN_FDS_START as u64 > 2147483647 {
        return Err(ActivationError::FdCountOverflow);
    }
    Ok(FdRange { start: LISTEN_FDS_START as i32, end: (n as u64 + LISTEN_FDS_START as u64) as i32 })
}

/// One named descriptor.
#[derive(Debug)]
pub struct NamedFd {
    pub name: String,
    pub fd: i32,
}

pub open spec fn named_views(v: Seq<NamedFd>) -> Seq<(Seq<char>, i32)> {
    v.map_values(|n: NamedFd| (n.name@, n.fd))
}

/// The names of `LISTEN_FDNAMES`, unset read as empty.
pub open spec fn names_of(names: Option<Seq<char>>) -> Seq<Seq<char>> {
    match names {
        Some(s) => split_by(s, ':'),
        None => split_by(Seq::empty(), ':'),
    }
}

/// The descriptor of the last entry named `name`.
pub open spec fn last_fd(v: Seq<(Seq<char>, i32)>, name: Seq<char>) -> Option<i32>
    decreases v.len(),
{
    if v.len() == 0 {
        None
    } else if v.last().0 == name {
        Some(v.last().1)
    } else {
        last_fd(v.drop_last(), name)
    }
}

/// The entries not named `name`, in order.
pub open spec fn without_name(v: Seq<(Seq<char>, i32)>, name: Seq<char>) -> Seq<(Seq<char>, i32)>
    decreases v.len(),
{
    if v.len() == 0 {
        Seq::empty()
    } else if v.last().0 == name {
        without_name(v.drop_last(), name)
    } else {
        without_name(v.drop_last(), name).push(v.last())
    }
}

/// The descriptors of a service manager, by name.
#[derive(Debug)]
pub struct Systemd {
    fds: Vec<NamedFd>,
}

impl View for Systemd {
    type V = Seq<(Seq<char>, i32)>;

    closed spec fn view(&self) -> Seq<(Seq<char>, i32)> {
        named_views(self.fds@)
    }
}

impl Systemd {
    /// Pairs the descriptors of `range` with the colon-separated `names`:
    /// with no descriptors there is nothing to pair; otherwise each
    /// descriptor must have exactly one name.
    pub fn from_parts(range: FdRange, names: Option<&str>) -> (r: Result<Systemd, ActivationError>)
        requires
            0 <= range.start <= range.end,
        ensures
            ({
                let ns = names_of(
                    match names {
                        Some(s) => Some(s@),
                        None => None,
                    },
                );
                let count = range.end - range.start;
                &&& count == 0 ==> r is Ok && r->Ok_0@.len() == 0
                &&& count > 0 && ns.len() != count ==> r == Err::<Systemd, ActivationError>(
                    ActivationError::NamesMismatch,
                )
                &&& count > 0 && ns.len() == count ==> r is Ok && r->Ok_0@ == Seq::new(
                    count as nat,
                    |i: int| (ns[i], (range.start + i) as i32),
                )
            }),
    {
        let count = range.end as i64 - range.start as i64;
        if count == 0 {
            let s = Systemd { fds: Vec::new() };
            assert(s@ =~= Seq::<(Seq<char>, i32)>::empty());
            return Ok(s);
        }
        let list = match names {
            Some(s) => split_at_char(s, ':'),
            None => split_at_char("", ':'),
        };
        proof {
            if names is None {
                reveal_strlit("");
                assert(""@ =~= Seq::<char>::empty());
            }
        }
        let wanted = count as usize;
        if list.len() != wanted {
            return Err(ActivationError::NamesMismatch);
        }
        let ghost ns = texts(list@);
        let mut fds: Vec<NamedFd> = Vec::new();
        let mut i: usize = 0;
        while i < list.len()
            invariant
                i <= list@.len(),
                list@.len() == count,
                count == range.end - range.start,
                0 <= range.start <= range.end,
                ns == texts(list@),
                named_views(fds@) == Seq::new(
                    i as nat,
                    |k: int| (ns[k], (range.start + k) as i32),
                ),
            decreases list@.len() - i,
        {
            let ghost before = named_views(fds@);
            let fd = range.start + i as i32;
            fds.push(NamedFd { name: list[i].clone(), fd });
            assert(named_views(fds@) =~= before.push((ns[i as int], fd)));
            assert(named_views(fds@) =~= Seq::new(
                (i + 1) as nat,
                |k: int| (ns[k], (range.start + k) as i32),
            ));
            i += 1;
        }
        Ok(Systemd { fds })
    }

    /// Takes the descriptor named `name`: where several have that name, the
    /// last one, as a later name overrides an earlier one. No descriptor of
    /// that name is held afterwards; none is returned if there is none.
    pub fn activate(&mut self, name: &str) -> (r: Vec<i32>)
        ensures
            r@ == match last_fd(old(self)@, name@) {
                Some(fd) => seq![fd],
                None => Seq::<i32>::empty(),
            },
            final(self)@ == without_name(old(self)@, name@),
    {
        let n = name.to_owned();
        let ghost all = self@;
        let mut kept: Vec<NamedFd> = Vec::new();
        let mut found: Option<i32> = None;
        let mut rest: Vec<NamedFd> = Vec::new();
        rest.append(&mut self.fds);
        let total = rest.len();
        assert(named_views(rest@) == all);
        let mut i: usize = 0;
        assert(rest@.subrange(0, total as int) =~= rest@);
        assert(named_views(kept@) =~= without_name(all.subrange(0, 0), name@));
        while i < total
            invariant
                i <= total,
                total == all.len(),
                named_views(rest@) == all.subrange(i as int, total as int),
                rest@.len() == total - i,
                n@ == name@,
                named_views(kept@) == without_name(all.subrange(0, i as int), name@),
                found == last_fd(all.subrange(0, i as int), name@),
            decreases total - i,
        {
            let ghost cur = all.subrange(0, i as int + 1);
            assert(cur.drop_last() =~= all.subrange(0, i as int));
            assert(named_views(rest@)[0] == all[i as int]);
            let ghost rv = rest@;
            let e = rest.remove(0);
            assert(rest@ =~= rv.subrange(1, rv.len() as int));
            assert(named_views(rest@) =~= named_views(rv).subrange(1, rv.len() as int));
            assert(named_views(rest@) =~= all.subrange(i as int + 1, total as int));
            assert(cur.last() == (e.name@, e.fd));
            if e.name == n {
                found = Some(e.fd);
            } else {
                let ghost kv = named_views(kept@);
                kept.push(e);
                assert(named_views(kept@) =~= kv.push(cur.last()));
            }
            i += 1;
        }
        assert(all.subrange(0, total as int) =~= all);
        self.fds = kept;
        match found {
            Some(fd) => {
                let mut out: Vec<i32> = Vec::new();
                out.push(fd);
                assert(out@ =~= seq![fd]);
                out
            },
            None => {
                let out: Vec<i32> = Vec::new();
                assert(out@ =~= Seq::<i32>::empty());
                out
            },
        }
    }
}

} // verus!
