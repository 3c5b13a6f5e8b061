//! The server's settings, read from the values of its environment
//! variables (the caller reads the variables).
use vstd::prelude::*;
use crate::text::{parse_unsigned, split_commas, strings_view, trimmed};

verus! {

/// The port to listen on, the origins allowed to call, and the number of
/// rows (and columns) of a board.
#[derive(Debug)]
pub struct Config {
    pub port: u16,
    pub allowed_origins: Vec<String>,
    pub board_size: usize,
}

/// The number `var` holds as `str::parse` reads it for a type whose
/// largest value is `max`, or `default` when it is absent or unreadable.
pub open spec fn number_or(var: Option<Seq<char>>, max: int, default: int) -> int {
    match var {
        Some(s) => match parse_unsigned(s, max) {
            Some(v) => v,
            None => default,
        },
        None => default,
    }
}

/// The allowed origins a comma-separated list names: each piece without
/// its surrounding white space, empty pieces dropped.
pub open spec fn origins_of(s: Seq<char>) -> Seq<Seq<char>> {
    split_commas(s).map_values(trim_fn()).filter(nonempty_text())
}

pub open spec fn trim_fn() -> spec_fn(Seq<char>) -> Seq<char> {
    |p: Seq<char>| trimmed(p)
}

pub open spec fn nonempty_text() -> spec_fn(Seq<char>) -> bool {
    |t: Seq<char>| t.len() > 0
}

/// The characters of an optional string.
pub open spec fn var_view(o: Option<String>) -> Option<Seq<char>> {
    match o {
        Some(s) => Some(s@),
        None => None,
    }
}

/// The board size `BOARD_SIZE` sets: its value, or 15.
pub fn parse_board_size(var: Option<String>) -> (res: usize)
    ensures
        res as int == number_or(var_view(var), usize::MAX as int, 15),
{
    match var {
        Some(s) => match crate::text::parse_unsigned_exec(s.as_str(), usize::MAX as u64) {
            Some(v) => v as usize,
            None => 15,
        },
        None => 15,
    }
}

/// The allowed origins a comma-separated list names.
pub fn parse_origins(list: &str) -> (res: Vec<String>)
    ensures
        strings_view(res@) == origins_of(list@),
{
    let pieces = crate::text::split_commas_exec(list);
    let ghost ps = strings_view(pieces@);
    let ghost f = nonempty_text();
    let ghost g = trim_fn();
    let mut out: Vec<String> = Vec::new();
    let mut i: usize = 0;
    assert(ps.take(0).map_values(g).filter(f) =~= Seq::<Seq<char>>::empty());
    while i < pieces.len()
        invariant
            ps == strings_view(pieces@),
            f == nonempty_text(),
            g == trim_fn(),
            i <= pieces.len(),
            strings_view(out@) == ps.take(i as int).map_values(g).filter(f),
        decreases pieces.len() - i,
    {
        let t = crate::text::trim(pieces[i].as_str());
        proof {
            let m = ps.take(i as int).map_values(g);
            assert(ps[i as int] == pieces@[i as int]@);
            assert(ps.take(i as int + 1).map_values(g) =~= m.push(t@));
            m.lemma_filter_push(t@, f);
        }
        if !t.as_str().is_empty() {
            out.push(t);
            assert(strings_view(out@) =~= ps.take(i as int).map_values(g).filter(f).push(
                trimmed(ps[i as int]),
            ));
        }
        i = i + 1;
    }
    assert(ps.take(pieces.len() as int) =~= ps);
    out
}

impl Config {
    /// The settings the values of `PORT`, `ALLOWED_ORIGINS` and
    /// `BOARD_SIZE` give: the port, or 3001; the listed origins (none when
    /// unset); the board size, or 15.
    pub fn from_vars(
        port: Option<String>,
        allowed_origins: Option<String>,
        board_size: Option<String>,
    ) -> (res: Config)
        ensures
            res.port as int == number_or(var_view(port), u16::MAX as int, 3001),
            strings_view(res.allowed_origins@) == origins_of(
                match allowed_origins {
                    Some(s) => s@,
                    None => Seq::empty(),
                },
            ),
            res.board_size as int == number_or(var_view(board_size), usize::MAX as int, 15),
    {
        let port_value: u16 = match port {
            Some(s) => match crate::text::parse_unsigned_exec(s.as_str(), 65535) {
                Some(v) => v as u16,
                None => 3001,
            },
            None => 3001,
        };
        let origins = match allowed_origins {
            Some(s) => parse_origins(s.as_str()),
            None => parse_origins(""),
        };
        proof {
            reveal_strlit("");
        }
        Config {
            port: port_value,
            allowed_origins: origins,
            board_size: parse_board_size(board_size),
        }
    }
}

} // verus!
