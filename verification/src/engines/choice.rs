//! Which engine a server runs: the one asked for, held against the one that the
//! data directory was made with.

use crate::error::KvsError;
use vstd::prelude::*;
use vstd::string::StringExecFns;

verus! {

/// The engines that a server can run.
#[derive(Clone, Copy, Debug, PartialEq, Eq, Structural)]
pub enum EngineKind {
    /// The log-structured store of this crate.
    Kvs,
    /// An embedded tree store.
    Sled,
}

/// The engine that a name stands for.
pub open spec fn engine_named(name: Seq<char>) -> Option<EngineKind> {
    if name == "kvs"@ {
        Some(EngineKind::Kvs)
    } else if name == "sled"@ {
        Some(EngineKind::Sled)
    } else {
        None
    }
}

/// The name of an engine, as the marker file holds it.
pub open spec fn name_of(kind: EngineKind) -> Seq<char> {
    match kind {
        EngineKind::Kvs => "kvs"@,
        EngineKind::Sled => "sled"@,
    }
}

/// The engine that the marker file records, given its content if the file exists.
pub open spec fn recorded(marker: Option<Seq<char>>) -> Option<EngineKind> {
    match marker {
        Some(content) => engine_named(content),
        None => None,
    }
}

/// The engine to run: the one asked for, else the one recorded, else `Kvs`; none
/// where the name asked for names no engine, or differs from the one recorded.
pub open spec fn chosen(requested: Option<Seq<char>>, marker: Option<Seq<char>>) -> Option<
    EngineKind,
> {
    match requested {
        Some(name) => match engine_named(name) {
            Some(kind) => match recorded(marker) {
                Some(other) => if kind == other {
                    Some(kind)
                } else {
                    None
                },
                None => Some(kind),
            },
            None => None,
        },
        None => match recorded(marker) {
            Some(kind) => Some(kind),
            None => Some(EngineKind::Kvs),
        },
    }
}

/// An engine's name is read as that engine.
pub proof fn lemma_name_round_trip(kind: EngineKind)
    ensures
        engine_named(name_of(kind)) == Some(kind),
{
    reveal_strlit("kvs");
    reveal_strlit("sled");
    assert("kvs"@.len() == 3);
    assert("sled"@.len() == 4);
}

/// The engine that a name stands for: `kvs` or `sled`.
pub fn parse_engine(name: &String) -> (r: Option<EngineKind>)
    ensures
        r == engine_named(name@),
{
    if *name == String::from_str("kvs") {
        Some(EngineKind::Kvs)
    } else if *name == String::from_str("sled") {
        Some(EngineKind::Sled)
    } else {
        None
    }
}

/// The name of an engine, as the marker file holds it.
pub fn engine_name(kind: EngineKind) -> (name: String)
    ensures
        name@ == name_of(kind),
{
    match kind {
        EngineKind::Kvs => String::from_str("kvs"),
        EngineKind::Sled => String::from_str("sled"),
    }
}

/// The engine that the marker file records, given its content if the file exists.
/// A content that names no engine records none.
pub fn current_engine(marker: Option<&String>) -> (r: Option<EngineKind>)
    ensures
        r == recorded(
            match marker {
                Some(content) => Some(content@),
                None => None,
            },
        ),
{
    match marker {
        Some(content) => parse_engine(content),
        None => None,
    }
}

/// The engine to run, given the name asked for, if one was, and the marker file's
/// content, if the file exists. Fails with `InvalidEngine` where the name asked for
/// names no engine, or differs from the one recorded.
pub fn choose_engine(requested: Option<&String>, marker: Option<&String>) -> (r: Result<
    EngineKind,
    KvsError,
>)
    ensures
        match r {
            Ok(kind) => chosen(
                match requested {
                    Some(name) => Some(name@),
                    None => None,
                },
                match marker {
                    Some(content) => Some(content@),
                    None => None,
                },
            ) == Some(kind),
            Err(e) => e is InvalidEngine && chosen(
                match requested {
                    Some(name) => Some(name@),
                    None => None,
                },
                match marker {
                    Some(content) => Some(content@),
                    None => None,
                },
            ) is None,
        },
{
    let recorded = current_engine(marker);
    match requested {
        Some(name) => match parse_engine(name) {
            Some(kind) => match recorded {
                Some(other) => if kind == other {
                    Ok(kind)
                } else {
                    Err(KvsError::InvalidEngine)
                },
                None => Ok(kind),
            },
            None => Err(KvsError::InvalidEngine),
        },
        None => match recorded {
            Some(kind) => Ok(kind),
            None => Ok(EngineKind::Kvs),
        },
    }
}

} // verus!
