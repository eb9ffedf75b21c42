use minisql::connection::request::{is_space_char, Command, Request, RequestError};
use minisql::manager::pool::PoolError;
use minisql::text::decimal;

fn command(username: &str, dbname: &str, cmd: &str) -> Command {
    Command { username: username.to_string(), dbname: dbname.to_string(), cmd: cmd.to_string() }
}

/// What the standard library makes of the same text.
fn by_std(input: &str) -> Result<Command, RequestError> {
    let parts: Vec<&str> = input.split("||").collect();
    if parts.len() != 3 {
        return Err(RequestError::BadRequest);
    }
    let cmd = format!("{};", parts[2]);
    if parts[1] == "" {
        let mut words = cmd.split_whitespace();
        if words.next() != Some("create") || words.next() != Some("database") {
            return Err(RequestError::CreateDBBeforeCmd);
        }
    }
    Ok(command(parts[0], parts[1], &cmd))
}

#[test]
fn parse_takes_three_parts() {
    assert_eq!(
        Request::parse("alice||shop||select * from t"),
        Ok(command("alice", "shop", "select * from t;"))
    );
}

#[test]
fn parse_accepts_create_database_without_a_database() {
    assert_eq!(
        Request::parse("alice||||create database shop"),
        Ok(command("alice", "", "create database shop;"))
    );
    assert_eq!(
        Request::parse("alice||||  create \t database\nshop"),
        Ok(command("alice", "", "  create \t database\nshop;"))
    );
}

#[test]
fn parse_refuses_other_commands_without_a_database() {
    for cmd in ["select 1", "", "create", "create table t", "created database x", "create database", "Create database x", "database create x"] {
        let input = format!("alice||||{}", cmd);
        assert_eq!(Request::parse(&input), Err(RequestError::CreateDBBeforeCmd), "{}", input);
    }
}

#[test]
fn parse_refuses_text_without_three_parts() {
    for input in ["", "alice", "alice||shop", "a||b||c||d", "||", "a|b|c", "a||b|c"] {
        assert_eq!(Request::parse(input), Err(RequestError::BadRequest), "{}", input);
    }
}

#[test]
fn parse_finds_the_bars_from_the_left() {
    assert_eq!(Request::parse("a|||b||c"), Ok(command("a", "|b", "c;")));
    assert_eq!(Request::parse("a||b|||c"), Ok(command("a", "b", "|c;")));
    assert_eq!(Request::parse("||||"), Err(RequestError::CreateDBBeforeCmd));
    assert_eq!(Request::parse("||x||"), Ok(command("", "x", ";")));
    assert_eq!(Request::parse("|||||"), Err(RequestError::CreateDBBeforeCmd));
    assert_eq!(Request::parse("||||||"), Err(RequestError::BadRequest));
}

#[test]
fn parse_keeps_characters_of_any_width() {
    assert_eq!(
        Request::parse("zoë||日本||select 'ü'"),
        Ok(command("zoë", "日本", "select 'ü';"))
    );
    assert_eq!(
        Request::parse("zoë||||create\u{3000}database\u{a0}日本"),
        Ok(command("zoë", "", "create\u{3000}database\u{a0}日本;"))
    );
}

#[test]
fn parse_agrees_with_the_standard_library() {
    let pieces = ["", "a", "|", "||", "|||", " ", "create", "database", "create database", "x y", "é", "\t"];
    for a in pieces {
        for b in pieces {
            for c in pieces {
                for d in pieces {
                    let input = format!("{}||{}{}||{}", a, b, c, d);
                    assert_eq!(Request::parse(&input), by_std(&input), "{:?}", input);
                    let input = format!("{}{}{}{}", a, b, c, d);
                    assert_eq!(Request::parse(&input), by_std(&input), "{:?}", input);
                }
            }
        }
    }
}

#[test]
fn white_space_is_what_the_standard_library_says() {
    for code in 0..=0x10FFFFu32 {
        if let Some(c) = char::from_u32(code) {
            assert_eq!(is_space_char(c), c.is_whitespace(), "U+{:04X}", code);
        }
    }
}

#[test]
fn user_verify_refuses_only_the_empty_name() {
    assert_eq!(Request::user_verify(""), Err(()));
    assert_eq!(Request::user_verify("a"), Ok(()));
    assert_eq!(Request::user_verify(" "), Ok(()));
    assert_eq!(Request::user_verify("é"), Ok(()));
}

#[test]
fn request_error_messages() {
    assert_eq!(RequestError::BadRequest.message(), "BadRequest, invalid request format");
    assert_eq!(
        RequestError::CreateDBBeforeCmd.message(),
        "please create a database before any other commands"
    );
    assert_eq!(RequestError::UserNotExist("bob".to_string()).message(), "user: bob not found");
    assert_eq!(
        RequestError::CauseByParser("unexpected token".to_string()).message(),
        "error caused by parser: unexpected token"
    );
    assert_eq!(
        RequestError::PoolError(PoolError::EntryNotFound("bob".to_string())).message(),
        "error caused by pool: user: bob entry is not existed"
    );
}

#[test]
fn pool_error_messages() {
    assert_eq!(PoolError::ZeroCapacity.message(), "a pool needs room for at least one entry");
    assert_eq!(
        PoolError::SQLError("no such database".to_string()).message(),
        "error cause by worker: no such database"
    );
    assert_eq!(
        PoolError::EntryNotFound("bob".to_string()).message(),
        "user: bob entry is not existed"
    );
    assert_eq!(
        PoolError::EvictionFailed("bob".to_string()).message(),
        "user: bob entry could not be written back"
    );
}

#[test]
fn decimal_writes_numbers_without_leading_zeros() {
    for n in [0u64, 1, 9, 10, 11, 99, 100, 101, 4096, 1234567890, u64::MAX - 1, u64::MAX] {
        assert_eq!(decimal(n), n.to_string());
    }
}
