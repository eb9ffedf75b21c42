use minisql::storage::file::{
    Attribute, DbInfo, File, FileError, Probe, Table, TableInfo, UsernameInfo, Verdict,
};

fn texts(list: &[&str]) -> Vec<String> {
    list.iter().map(|s| s.to_string()).collect()
}

fn attributes(names: &[&str]) -> Vec<Attribute> {
    names
        .iter()
        .map(|name| Attribute { name: name.to_string(), definition: format!("{} Varchar(40)", name) })
        .collect()
}

fn table(name: &str, primary_key: &[&str], fields: &[&str]) -> Table {
    Table {
        name: name.to_string(),
        primary_key: texts(primary_key),
        foreign_key: vec![],
        reference_table: None,
        fields: attributes(fields),
    }
}

/// Runs the whole check against what `found` says is on disk.
fn check(
    found: &dyn Fn(Probe) -> bool,
    username: Option<&str>,
    db_name: Option<&str>,
    table_name: Option<&str>,
) -> (Result<(), FileError>, Vec<Probe>) {
    let mut asked = Vec::new();
    let mut probe = Probe::BaseDir;
    loop {
        asked.push(probe);
        match File::storage_hierarchy_check(probe, found(probe), username, db_name, table_name) {
            Verdict::Passed => return (Ok(()), asked),
            Verdict::Failed(e) => return (Err(e), asked),
            Verdict::Next(next) => probe = next,
        }
    }
}

#[test]
fn test_create_username() {
    let mut usernames: Vec<UsernameInfo> = Vec::new();
    File::create_username(&mut usernames, "crazyguy").unwrap();
    File::create_username(&mut usernames, "happyguy").unwrap();

    let ideal_usernames = vec![
        UsernameInfo { name: "crazyguy".to_string(), path: "crazyguy".to_string() },
        UsernameInfo { name: "happyguy".to_string(), path: "happyguy".to_string() },
    ];
    assert_eq!(usernames[0].name, ideal_usernames[0].name);
    assert_eq!(usernames[1].name, ideal_usernames[1].name);
    assert_eq!(usernames[0].path, ideal_usernames[0].path);
    assert_eq!(usernames[1].path, ideal_usernames[1].path);
    assert_eq!(usernames.len(), 2);

    let dbs: Vec<DbInfo> = Vec::new();
    assert_eq!(File::get_dbs(&dbs).len(), 0);

    match File::create_username(&mut usernames, "happyguy") {
        Ok(_) => panic!("a second happyguy was accepted"),
        Err(e) => {
            assert_eq!(e.message(), "User name already exists and cannot be created again.")
        }
    };
    assert_eq!(usernames, ideal_usernames);
}

#[test]
fn test_get_usernames() {
    let mut usernames: Vec<UsernameInfo> = Vec::new();
    File::create_username(&mut usernames, "crazyguy").unwrap();
    File::create_username(&mut usernames, "happyguy").unwrap();

    let names: Vec<String> = File::get_usernames(&usernames);
    assert_eq!(names, vec!["crazyguy", "happyguy"]);
}

#[test]
fn test_remove_username() {
    let mut usernames: Vec<UsernameInfo> = Vec::new();
    File::create_username(&mut usernames, "crazyguy").unwrap();
    File::create_username(&mut usernames, "happyguy").unwrap();
    File::create_username(&mut usernames, "sadguy").unwrap();
    assert_eq!(File::get_usernames(&usernames), vec!["crazyguy", "happyguy", "sadguy"]);

    File::remove_username(&mut usernames, "happyguy").unwrap();
    assert_eq!(File::get_usernames(&usernames), vec!["crazyguy", "sadguy"]);

    match File::remove_username(&mut usernames, "happyguy") {
        Ok(_) => panic!("happyguy was removed twice"),
        Err(e) => assert_eq!(
            e.message(),
            "Specified user name not exists. Please create this username first."
        ),
    };
    assert_eq!(File::get_usernames(&usernames), vec!["crazyguy", "sadguy"]);

    File::remove_username(&mut usernames, "sadguy").unwrap();
    assert_eq!(File::get_usernames(&usernames), vec!["crazyguy"]);

    File::remove_username(&mut usernames, "crazyguy").unwrap();
    assert_eq!(File::get_usernames(&usernames).len(), 0);
}

#[test]
fn test_create_db() {
    let mut dbs: Vec<DbInfo> = Vec::new();
    File::create_db(&mut dbs, "BookerDB").unwrap();
    File::create_db(&mut dbs, "MovieDB").unwrap();

    let ideal_dbs = vec![
        DbInfo { name: "BookerDB".to_string(), path: "BookerDB".to_string() },
        DbInfo { name: "MovieDB".to_string(), path: "MovieDB".to_string() },
    ];
    assert_eq!(dbs[0].name, ideal_dbs[0].name);
    assert_eq!(dbs[1].name, ideal_dbs[1].name);
    assert_eq!(dbs[0].path, ideal_dbs[0].path);
    assert_eq!(dbs[1].path, ideal_dbs[1].path);

    let tables: Vec<TableInfo> = Vec::new();
    assert_eq!(tables.len(), 0);

    // a user that the list of users does not hold
    let listed = |probe: Probe| probe != Probe::UsernameListed;
    match check(&listed, Some("happyguy"), None, None).0 {
        Ok(_) => panic!("happyguy was found"),
        Err(e) => assert_eq!(
            e.message(),
            "Specified user name not exists. Please create this username first."
        ),
    };

    match File::create_db(&mut dbs, "BookerDB") {
        Ok(_) => panic!("a second BookerDB was accepted"),
        Err(e) => assert_eq!(e.message(), "DB already exists and cannot be created again."),
    };
    assert_eq!(dbs, ideal_dbs);
}

#[test]
fn test_get_dbs() {
    let mut dbs: Vec<DbInfo> = Vec::new();
    assert_eq!(File::get_dbs(&dbs).len(), 0);

    File::create_db(&mut dbs, "BookerDB").unwrap();
    assert_eq!(File::get_dbs(&dbs), vec!["BookerDB"]);

    File::create_db(&mut dbs, "MovieDB").unwrap();
    assert_eq!(File::get_dbs(&dbs), vec!["BookerDB", "MovieDB"]);

    let listed = |probe: Probe| probe != Probe::UsernameListed;
    match check(&listed, Some("sadguy"), None, None).0 {
        Ok(_) => panic!("sadguy was found"),
        Err(e) => assert_eq!(
            e.message(),
            "Specified user name not exists. Please create this username first."
        ),
    };
}

#[test]
fn test_remove_db() {
    let mut dbs: Vec<DbInfo> = Vec::new();
    File::create_db(&mut dbs, "BookerDB").unwrap();
    File::create_db(&mut dbs, "MovieDB").unwrap();
    File::create_db(&mut dbs, "PhotoDB").unwrap();
    assert_eq!(File::get_dbs(&dbs), vec!["BookerDB", "MovieDB", "PhotoDB"]);

    File::remove_db(&mut dbs, "MovieDB").unwrap();
    assert_eq!(File::get_dbs(&dbs), vec!["BookerDB", "PhotoDB"]);

    let listed = |probe: Probe| probe != Probe::UsernameListed;
    match check(&listed, Some("happyguy"), None, None).0 {
        Ok(_) => panic!("happyguy was found"),
        Err(e) => assert_eq!(
            e.message(),
            "Specified user name not exists. Please create this username first."
        ),
    };

    File::remove_db(&mut dbs, "PhotoDB").unwrap();
    assert_eq!(File::get_dbs(&dbs), vec!["BookerDB"]);

    match File::remove_db(&mut dbs, "PhotoDB") {
        Ok(_) => panic!("PhotoDB was removed twice"),
        Err(e) => assert_eq!(e.message(), "DB not exists. Please create DB first."),
    };

    File::remove_db(&mut dbs, "BookerDB").unwrap();
    assert_eq!(File::get_dbs(&dbs).len(), 0);
}

#[test]
fn test_create_load_drop_table() {
    let mut tables: Vec<TableInfo> = Vec::new();
    let aff_table = table("Affiliates", &["AffID"], &["AffID", "AffName", "AffEmail", "AffPhoneNum"]);
    File::create_table(&mut tables, &aff_table).unwrap();
    let htl_table = table("Hotels", &["HotelID"], &["HotelName", "HotelID", "HotelType", "HotelAddr"]);
    File::create_table(&mut tables, &htl_table).unwrap();

    let ideal_tables = vec![
        TableInfo {
            name: "Affiliates".to_string(),
            path_tsv: "Affiliates.tsv".to_string(),
            path_bin: "Affiliates.bin".to_string(),
            primary_key: vec!["AffID".to_string()],
            foreign_key: vec![],
            reference_table: None,
            last_rid: 0,
            attrs_order: texts(&["__rid__", "AffID", "AffName", "AffEmail", "AffPhoneNum"]),
            attrs: attributes(&["AffID", "AffName", "AffEmail", "AffPhoneNum"]),
        },
        TableInfo {
            name: "Hotels".to_string(),
            path_tsv: "Hotels.tsv".to_string(),
            path_bin: "Hotels.bin".to_string(),
            primary_key: vec!["HotelID".to_string()],
            foreign_key: vec![],
            reference_table: None,
            last_rid: 0,
            attrs_order: texts(&["__rid__", "HotelID", "HotelName", "HotelType", "HotelAddr"]),
            attrs: attributes(&["HotelName", "HotelID", "HotelType", "HotelAddr"]),
        },
    ];

    assert_eq!(tables.len(), 2);
    for i in 0..tables.len() {
        assert_eq!(tables[i].name, ideal_tables[i].name);
        assert_eq!(tables[i].path_tsv, ideal_tables[i].path_tsv);
        assert_eq!(tables[i].path_bin, ideal_tables[i].path_bin);
        assert_eq!(tables[i].primary_key, ideal_tables[i].primary_key);
        assert_eq!(tables[i].foreign_key, ideal_tables[i].foreign_key);
        assert_eq!(tables[i].reference_table, ideal_tables[i].reference_table);
        assert_eq!(tables[i].last_rid, ideal_tables[i].last_rid);
        assert_eq!(tables[i].attrs_order, ideal_tables[i].attrs_order);
    }

    assert_eq!(tables[0].attrs_order[0], "__rid__".to_string());
    assert_eq!(tables[0].attrs_order[1], "AffID".to_string());
    assert_eq!(tables[0].attrs_order.len(), 5);

    let no_user = |probe: Probe| probe != Probe::UsernameListed;
    match check(&no_user, Some("happyguy"), Some("BookerDB"), None).0 {
        Ok(_) => panic!("happyguy was found"),
        Err(e) => assert_eq!(
            e.message(),
            "Specified user name not exists. Please create this username first."
        ),
    };
    let no_db = |probe: Probe| probe != Probe::DbListed;
    match check(&no_db, Some("crazyguy"), Some("MusicDB"), None).0 {
        Ok(_) => panic!("MusicDB was found"),
        Err(e) => assert_eq!(e.message(), "DB not exists. Please create DB first."),
    };
    match File::create_table(&mut tables, &htl_table) {
        Ok(_) => panic!("a second Hotels was accepted"),
        Err(e) => assert_eq!(e.message(), "Table already exists and cannot be created again."),
    };
    assert_eq!(tables, ideal_tables);

    File::drop_table(&mut tables, "Affiliates").unwrap();
    assert_eq!(tables.len(), 1);
    assert_eq!(tables[0].name, "Hotels");

    match File::drop_table(&mut tables, "Affiliates") {
        Ok(_) => panic!("Affiliates was dropped twice"),
        Err(e) => assert_eq!(e.message(), "Table not exists. Please create table first."),
    };

    File::drop_table(&mut tables, "Hotels").unwrap();
    assert_eq!(tables.len(), 0);
}

#[test]
fn create_table_copies_keys_and_reference() {
    let mut tables: Vec<TableInfo> = Vec::new();
    let mut rooms = table("Rooms", &["HotelID", "RoomNo"], &["Beds", "RoomNo", "HotelID", "Price"]);
    rooms.foreign_key = texts(&["HotelID"]);
    rooms.reference_table = Some("Hotels".to_string());
    assert_eq!(File::create_table(&mut tables, &rooms), Ok(()));
    assert_eq!(tables[0].foreign_key, texts(&["HotelID"]));
    assert_eq!(tables[0].reference_table, Some("Hotels".to_string()));
    assert_eq!(tables[0].attrs_order, texts(&["__rid__", "HotelID", "RoomNo", "Beds", "Price"]));
    assert_eq!(tables[0].attrs, attributes(&["Beds", "RoomNo", "HotelID", "Price"]));
}

#[test]
fn attrs_order_keeps_the_given_order_of_the_others() {
    let order = File::attrs_order(&texts(&["k"]), &attributes(&["z", "k", "a", "m", "a"]));
    assert_eq!(order, texts(&["__rid__", "k", "z", "a", "m", "a"]));
    assert_eq!(File::attrs_order(&vec![], &vec![]), texts(&["__rid__"]));
    assert_eq!(File::attrs_order(&texts(&["p", "q"]), &vec![]), texts(&["__rid__", "p", "q"]));
}

#[test]
fn remove_takes_the_first_of_that_name() {
    let mut dbs = vec![
        DbInfo { name: "a".to_string(), path: "1".to_string() },
        DbInfo { name: "b".to_string(), path: "2".to_string() },
        DbInfo { name: "a".to_string(), path: "3".to_string() },
    ];
    File::remove_db(&mut dbs, "a").unwrap();
    assert_eq!(dbs.len(), 2);
    assert_eq!(dbs[0].path, "2");
    assert_eq!(dbs[1].path, "3");
}

#[test]
fn is_listed_finds_names() {
    let mut usernames: Vec<UsernameInfo> = Vec::new();
    assert!(!File::is_listed(&usernames, "a"));
    File::create_username(&mut usernames, "a").unwrap();
    assert!(File::is_listed(&usernames, "a"));
    assert!(!File::is_listed(&usernames, "A"));
    assert!(!File::is_listed(&usernames, ""));
}

#[test]
fn check_passes_at_each_depth() {
    let all = |_: Probe| true;
    let (result, asked) = check(&all, None, None, None);
    assert_eq!(result, Ok(()));
    assert_eq!(asked, vec![Probe::BaseDir, Probe::UsernamesJson]);
    let (result, asked) = check(&all, Some("u"), None, None);
    assert_eq!(result, Ok(()));
    assert_eq!(asked.len(), 5);
    assert_eq!(asked[4], Probe::DbsJson);
    let (result, asked) = check(&all, Some("u"), Some("d"), None);
    assert_eq!(result, Ok(()));
    assert_eq!(asked.len(), 8);
    assert_eq!(asked[7], Probe::TablesJson);
    let (result, asked) = check(&all, Some("u"), Some("d"), Some("t"));
    assert_eq!(result, Ok(()));
    assert_eq!(
        asked,
        vec![
            Probe::BaseDir,
            Probe::UsernamesJson,
            Probe::UsernameListed,
            Probe::UsernameDir,
            Probe::DbsJson,
            Probe::DbListed,
            Probe::DbDir,
            Probe::TablesJson,
            Probe::TableListed,
            Probe::TableTsv,
        ]
    );
}

#[test]
fn check_without_user_stops_at_the_base_level() {
    let all = |_: Probe| true;
    let (result, asked) = check(&all, None, Some("d"), Some("t"));
    assert_eq!(result, Ok(()));
    assert_eq!(asked, vec![Probe::BaseDir, Probe::UsernamesJson]);
}

#[test]
fn check_fails_with_the_error_of_the_first_thing_missing() {
    let cases = vec![
        (Probe::BaseDir, FileError::BaseDirNotExists),
        (Probe::UsernamesJson, FileError::UsernamesJsonNotExists),
        (Probe::UsernameListed, FileError::UsernameNotExists),
        (Probe::UsernameDir, FileError::UsernameDirNotExists),
        (Probe::DbsJson, FileError::DbsJsonNotExists),
        (Probe::DbListed, FileError::DbNotExists),
        (Probe::DbDir, FileError::DbDirNotExists),
        (Probe::TablesJson, FileError::TablesJsonNotExists),
        (Probe::TableListed, FileError::TableNotExists),
        (Probe::TableTsv, FileError::TableTsvNotExists),
    ];
    for (missing, error) in cases {
        let found = |probe: Probe| probe != missing;
        let (result, asked) = check(&found, Some("u"), Some("d"), Some("t"));
        assert_eq!(result, Err(error));
        assert_eq!(*asked.last().unwrap(), missing);
    }
}

#[test]
fn file_error_messages() {
    assert_eq!(FileError::Io.message(), "No such file or directory.");
    assert_eq!(
        FileError::BaseDirNotExists.message(),
        "Base data directory not exists. All data lost."
    );
    assert_eq!(FileError::UsernamesJsonNotExists.message(), "The file `usernames.json` is lost");
    assert_eq!(
        FileError::UsernameDirNotExists.message(),
        "Username exists but corresponding data folder is lost."
    );
    assert_eq!(FileError::DbsJsonNotExists.message(), "The `dbs.json` of the username is lost");
    assert_eq!(
        FileError::DbDirNotExists.message(),
        "DB exists but correspoding data folder is lost."
    );
    assert_eq!(FileError::TablesJsonNotExists.message(), "The `tables.json` of the DB is lost.");
    assert_eq!(
        FileError::TableTsvNotExists.message(),
        "Table exists but correspoding tsv file is lost."
    );
    assert_eq!(FileError::JsonParse.message(), "JSON parsing error.");
}
