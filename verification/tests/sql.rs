use sqlite_reader::error::Error;
use sqlite_reader::sql::{
    identifier, identifiers, parse_column_list, parse_create_table, parse_select, parse_where,
    ColumnDef, Comparator, WhereClause,
};

#[test]
fn test_ws_identifier() {
    let input = "hello there";
    let res = identifiers(input);
    println!("{:?}", res);
    assert_eq!(res, ("", vec!["hello", "there"]));
}

#[test]
fn test_create_table() {
    let input = "create table foo (id integer primary key, name text)";
    let res = parse_create_table(input);
    println!("{:?}", res);
    assert_eq!(
        res,
        Ok((
            "",
            vec![
                ColumnDef {
                    name: "id".to_string(),
                    modifiers: "integer primary key".to_string(),
                    ipk: true,
                },
                ColumnDef {
                    name: "name".to_string(),
                    modifiers: "text".to_string(),
                    ipk: false,
                }
            ]
        ))
    );
}

#[test]
fn test_where() {
    let input = "where name_o = \'hello\'";
    let res = parse_where(input);
    println!("{:?}", res);
    assert_eq!(
        res,
        Ok((
            "",
            WhereClause {
                column: "name_o".to_string(),
                operator: Comparator::Eq,
                value: "hello".to_string()
            }
        ))
    );
}

#[test]
fn test_select() {
    let input = "SELECT id, name, eye_color FROM superheroes WHERE eye_color = \'Pink Eyes\'";
    let res = parse_select(input);
    println!("{:?}", res);
    assert_eq!(
        res,
        Ok((
            "",
            (
                vec!["id", "name", "eye_color"],
                "superheroes",
                Some(WhereClause {
                    column: "eye_color".to_string(),
                    operator: Comparator::Eq,
                    value: "Pink Eyes".to_string()
                })
            )
        ))
    );
}

#[test]
fn test() {
    let input = "id integer, name text";
    let res = parse_column_list(input);
    println!("{:?}", res);
    let names: Vec<Vec<String>> = res
        .clone()
        .unwrap()
        .1
        .iter()
        .map(|c| {
            let mut words = vec![c.name.clone()];
            words.extend(c.modifiers.split(' ').map(|w| w.to_string()));
            words
        })
        .collect();
    assert_eq!(res.unwrap().0, "");
    assert_eq!(names, vec![vec!["id", "integer"], vec!["name", "text"]]);
}

#[test]
fn test_identifier() {
    let input = "hello_there";
    let res = identifier(input);
    println!("{:?}", res);
    assert_eq!(res, Ok(("", "hello_there")));
    let res2 = identifier("hello there");
    assert_eq!(res2, Ok((" there", "hello")));
}

#[test]
fn identifier_quoted_may_hold_spaces() {
    assert_eq!(identifier("\"first name\" text"), Ok((" text", "first name")));
    assert_eq!(identifier("\"unclosed"), Err(Error::Syntax));
    assert_eq!(identifier("\"\""), Err(Error::Syntax));
}

#[test]
fn identifier_is_ascii_letters_digits_underscore() {
    assert_eq!(identifier("a1_B2-c"), Ok(("-c", "a1_B2")));
    assert_eq!(identifier("é"), Err(Error::Syntax));
    assert_eq!(identifier("abcé"), Ok(("é", "abc")));
    assert_eq!(identifier(""), Err(Error::Syntax));
    assert_eq!(identifier(" x"), Err(Error::Syntax));
}

#[test]
fn where_accepts_only_equality() {
    assert_eq!(parse_where("where a != 'x'"), Err(Error::Syntax));
    assert_eq!(parse_where("where a < 'x'"), Err(Error::Syntax));
    assert_eq!(parse_where("where a <= 'x'"), Err(Error::Syntax));
    assert_eq!(parse_where("where a = x"), Err(Error::Syntax));
    assert_eq!(parse_where("where a = 'x"), Err(Error::Syntax));
    assert_eq!(parse_where("were a = 'x'"), Err(Error::Syntax));
}

#[test]
fn where_text_may_be_empty_or_hold_any_character_but_a_quote() {
    assert_eq!(
        parse_where("  WHERE  \"eye color\"='' rest"),
        Ok((
            "rest",
            WhereClause {
                column: "eye color".to_string(),
                operator: Comparator::Eq,
                value: "".to_string()
            }
        ))
    );
    assert_eq!(
        parse_where("where c = 'Zoë = 1, (x)'\n"),
        Ok((
            "",
            WhereClause {
                column: "c".to_string(),
                operator: Comparator::Eq,
                value: "Zoë = 1, (x)".to_string()
            }
        ))
    );
}

#[test]
fn select_count() {
    assert_eq!(
        parse_select("select count(*) from apples"),
        Ok(("", (vec!["count(*)"], "apples", None)))
    );
    assert_eq!(
        parse_select("SELECT COUNT(*) FROM apples"),
        Ok(("", (vec!["COUNT(*)"], "apples", None)))
    );
}

#[test]
fn select_leaves_what_it_does_not_read() {
    assert_eq!(
        parse_select("select a , b from t where a != 'x'"),
        Ok((" where a != 'x'", (vec!["a", "b"], "t", None)))
    );
    assert_eq!(
        parse_select("select a, from t"),
        Err(Error::Syntax)
    );
    assert_eq!(parse_select("select a from t;"), Ok((";", (vec!["a"], "t", None))));
}

#[test]
fn select_rejects() {
    assert_eq!(parse_select("insert into t"), Err(Error::Syntax));
    assert_eq!(parse_select("select from t"), Err(Error::Syntax));
    assert_eq!(parse_select("select a t"), Err(Error::Syntax));
    assert_eq!(parse_select("select a from"), Err(Error::Syntax));
    assert_eq!(parse_select(""), Err(Error::Syntax));
}

#[test]
fn create_table_with_quoted_name_and_line_breaks() {
    let input = "CREATE TABLE \"apples\"\n(\n\tid integer primary key autoincrement,\n\tname text,\n\tcolor text\n)";
    let (rest, columns) = parse_create_table(input).unwrap();
    assert_eq!(rest, "");
    assert_eq!(columns.len(), 3);
    assert_eq!(columns[0].name, "id");
    assert_eq!(columns[0].modifiers, "integer primary key autoincrement");
    assert!(columns[0].ipk);
    assert_eq!(columns[1].name, "name");
    assert_eq!(columns[1].modifiers, "text");
    assert!(!columns[1].ipk);
    assert_eq!(columns[2].name, "color");
    assert!(!columns[2].ipk);
}

#[test]
fn create_table_integer_primary_key_in_any_case() {
    let (_, columns) = parse_create_table("create table t (a INTEGER Primary KEY, b integer)").unwrap();
    assert!(columns[0].ipk);
    assert!(!columns[1].ipk);
    // The name of the column is no modifier.
    let (_, columns) = parse_create_table("create table t (integer primary key)").unwrap();
    assert_eq!(columns[0].name, "integer");
    assert_eq!(columns[0].modifiers, "primary key");
    assert!(!columns[0].ipk);
}

#[test]
fn create_table_rejects() {
    assert_eq!(parse_create_table("create table t ()"), Err(Error::Syntax));
    assert_eq!(parse_create_table("create table t (a, )"), Err(Error::Syntax));
    assert_eq!(parse_create_table("create table t (a text"), Err(Error::Syntax));
    assert_eq!(parse_create_table("create  table t (a text)"), Err(Error::Syntax));
    assert_eq!(parse_create_table("create table (a text)"), Err(Error::Syntax));
    assert_eq!(parse_create_table("create table t (a varchar(10))"), Err(Error::Syntax));
}

#[test]
fn column_definition_new_takes_the_outcome_of_the_match() {
    let c = ColumnDef::new("id".to_string(), "integer primary key".to_string(), Some(true));
    assert!(c.ipk);
    let c = ColumnDef::new("id".to_string(), "integer primary key".to_string(), Some(false));
    assert!(!c.ipk);
    let c = ColumnDef::new("id".to_string(), "integer primary key".to_string(), None);
    assert!(!c.ipk);
    assert_eq!(c.name, "id");
    assert_eq!(c.modifiers, "integer primary key");
}
