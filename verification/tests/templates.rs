//! Templates, the CSV files that fill them, and the rooms that come out.
use dccmd_rs::models::DcCmdError;
use dccmd_rs::nodes::import::models::{
    CsvRow, GroupMemberAcceptance, GroupRoomPermission, HeaderIndexes, NodePermissions, Room,
    RoomImport, RoomMap, UserRoomPermission,
};
use dccmd_rs::nodes::import::plain::is_plain;
use serde_json::Value;

const ALL_TOKENS: &str = r#"{
    "name": "{{ name }}",
    "inheritPermissions": false,
    "userPermissions": "{{ userPermissions }}",
    "groupPermissions": "{{ groupPermissions }}"
}"#;

const PERMISSIONS: [&str; 10] = [
    "manage",
    "read",
    "create",
    "change",
    "delete",
    "manageDownloadShare",
    "manageUploadShare",
    "readRecycleBin",
    "restoreRecycleBin",
    "deleteRecycleBin",
];

fn permissions(manage: bool) -> NodePermissions {
    NodePermissions {
        manage,
        read: true,
        create: true,
        change: false,
        delete: false,
        manage_download_share: true,
        manage_upload_share: false,
        read_recycle_bin: true,
        restore_recycle_bin: false,
        delete_recycle_bin: false,
    }
}

fn permissions_json(manage: bool) -> String {
    let values = [manage, true, true, false, false, true, false, true, false, false];
    let fields: Vec<String> = PERMISSIONS
        .iter()
        .zip(values.iter())
        .map(|(name, value)| format!("\"{}\":{}", name, value))
        .collect();
    format!("{{{}}}", fields.join(","))
}

/// A field of a CSV file, in quotes.
fn quoted(field: &str) -> String {
    format!("\"{}\"", field.replace('"', "\"\""))
}

fn csv_file() -> Vec<u8> {
    let manage = quoted(&permissions_json(true));
    let read = quoted(&permissions_json(false));
    let mut text = String::from(
        "name,userId,userPermissions,groupId,newGroupMemberAcceptance,groupPermissions\n",
    );
    text.push_str(&format!("test,2,{manage},4,autoallow,{manage}\n"));
    text.push_str(&format!("test,3,{read},5,pending,{read}\n"));
    text.push_str(&format!("test_2,2,{manage},4,autoallow,{read}\n"));
    text.push_str(&format!("test_3,2,{read},,,\n"));
    text.into_bytes()
}

fn boolean(value: &Value, name: &str) -> bool {
    value.get(name).and_then(Value::as_bool).expect(name)
}

fn parse_permissions(value: &Value) -> NodePermissions {
    let value = value.get("permissions").expect("permissions");
    NodePermissions {
        manage: boolean(value, "manage"),
        read: boolean(value, "read"),
        create: boolean(value, "create"),
        change: boolean(value, "change"),
        delete: boolean(value, "delete"),
        manage_download_share: boolean(value, "manageDownloadShare"),
        manage_upload_share: boolean(value, "manageUploadShare"),
        read_recycle_bin: boolean(value, "readRecycleBin"),
        restore_recycle_bin: boolean(value, "restoreRecycleBin"),
        delete_recycle_bin: boolean(value, "deleteRecycleBin"),
    }
}

fn parse_room(content: &str) -> Result<Room, String> {
    let value: Value = serde_json::from_str(content).map_err(|e| e.to_string())?;
    let mut room = Room::default();
    room.name = value.get("name").and_then(Value::as_str).ok_or("no name")?.to_string();
    if let Some(users) = value.get("userPermissions").and_then(Value::as_array) {
        room.user_permissions = Some(
            users
                .iter()
                .map(|user| UserRoomPermission {
                    id: user.get("id").and_then(Value::as_u64).expect("id"),
                    permissions: parse_permissions(user),
                })
                .collect(),
        );
    }
    if let Some(groups) = value.get("groupPermissions").and_then(Value::as_array) {
        room.group_permissions = Some(
            groups
                .iter()
                .map(|group| GroupRoomPermission {
                    id: group.get("id").and_then(Value::as_u64).expect("id"),
                    new_group_member_acceptance: group
                        .get("newGroupMemberAcceptance")
                        .and_then(Value::as_str)
                        .and_then(RoomImport::parse_group_member_acceptance),
                    permissions: parse_permissions(group),
                })
                .collect(),
        );
    }
    Ok(room)
}

// ---------------------------------------------------------------- tokens

#[test]
fn test_get_template_tokens() {
    let tokens =
        RoomImport::get_template_tokens(ALL_TOKENS).expect("Failed to get template tokens.");

    assert_eq!(tokens, vec!["name", "userPermissions", "groupPermissions"]);
}

#[test]
fn test_get_template_tokens_wrong_token() {
    let tokens = RoomImport::get_template_tokens(
        r#"{ "name": "{{ name }}", "userPermissions": "{{ wrongToken }}" }"#,
    );

    assert!(tokens.is_err());
    assert!(matches!(tokens.unwrap_err(), DcCmdError::InvalidTemplateTokens(_)));
}

#[test]
fn test_get_template_tokens_no_token() {
    let tokens = RoomImport::get_template_tokens(r#"{ "name": "test" }"#);

    assert!(tokens.is_err());
    assert!(matches!(tokens.unwrap_err(), DcCmdError::NoTemplateTokensFound(_)));
}

#[test]
fn refused_tokens_are_listed() {
    assert_eq!(
        RoomImport::get_template_tokens("{{ name }} {{quota}} {{ a \"b\" }}"),
        Err(DcCmdError::InvalidTemplateTokens(
            "Invalid template tokens found in template content: [\"quota\", \"a \\\"b\\\"\"]. Only '{ name }', '{ userPermissions }' and '{ groupPermissions }' are allowed."
                .to_string()
        ))
    );
    assert_eq!(
        RoomImport::get_template_tokens(""),
        Err(DcCmdError::NoTemplateTokensFound(
            "No template tokens found in template content.".to_string()
        ))
    );
}

#[test]
fn tokens_are_trimmed_and_found_from_the_left() {
    assert_eq!(
        RoomImport::get_template_tokens("{{name}}{{\tname\u{a0}}} }} {{ userPermissions"),
        Ok(vec!["name".to_string(), "name".to_string()])
    );
}

#[test]
fn tokens_do_not_cross_lines() {
    assert!(matches!(
        RoomImport::get_template_tokens("{{ name\n}}"),
        Err(DcCmdError::NoTemplateTokensFound(_))
    ));
    assert_eq!(
        RoomImport::get_template_tokens("{{ name\n{{ name }}"),
        Ok(vec!["name".to_string()])
    );
}

#[test]
fn the_leftmost_braces_count() {
    assert_eq!(
        RoomImport::get_template_tokens("{{{name}}"),
        Err(DcCmdError::InvalidTemplateTokens(
            "Invalid template tokens found in template content: [\"{name\"]. Only '{ name }', '{ userPermissions }' and '{ groupPermissions }' are allowed."
                .to_string()
        ))
    );
    assert_eq!(
        RoomImport::get_template_tokens("{{}}}}"),
        Err(DcCmdError::InvalidTemplateTokens(
            "Invalid template tokens found in template content: [\"\"]. Only '{ name }', '{ userPermissions }' and '{ groupPermissions }' are allowed."
                .to_string()
        ))
    );
}

// ---------------------------------------------------------------- headers

#[test]
fn test_get_header_indexes() {
    let header_indexes =
        RoomImport::get_header_indexes(&csv_file()).expect("Failed to get header indexes.");

    assert_eq!(header_indexes.name_index, Some(0));
    assert_eq!(header_indexes.user_id_index, Some(1));
    assert_eq!(header_indexes.user_permissions_index, Some(2));
    assert_eq!(header_indexes.group_id_index, Some(3));
    assert_eq!(header_indexes.new_group_member_acceptance_index, Some(4));
    assert_eq!(header_indexes.group_permissions_index, Some(5));
}

fn header_error(data: &str) -> String {
    match RoomImport::get_header_indexes(&data.as_bytes().to_vec()) {
        Err(DcCmdError::CsvReadHeaders(message)) => message,
        other => panic!("{:?}", other),
    }
}

#[test]
fn missing_columns_are_refused() {
    assert_eq!(header_error(""), "No 'name' column found in CSV file.");
    assert_eq!(header_error("Name,userId\n"), "No 'name' column found in CSV file.");
    assert_eq!(
        header_error("userId,name\n"),
        "'userId' column found but no 'userPermissions' column found in CSV file."
    );
    assert_eq!(
        header_error("groupId,name\n"),
        "'groupId' column found but no 'groupPermissions' column found in CSV file."
    );
}

#[test]
fn columns_are_found_by_their_first_title() {
    let found = RoomImport::get_header_indexes(&b"groupPermissions,name,x,name\n".to_vec());
    assert_eq!(
        found,
        Ok(HeaderIndexes {
            name_index: Some(1),
            user_id_index: None,
            user_permissions_index: None,
            group_id_index: None,
            new_group_member_acceptance_index: None,
            group_permissions_index: Some(0),
        })
    );
}

#[test]
fn unreadable_headers_are_an_error() {
    let message = match RoomImport::get_header_indexes(&vec![b'n', 0xff, b'\n']) {
        Err(DcCmdError::CsvReadHeaders(message)) => message,
        other => panic!("{:?}", other),
    };
    assert!(message.starts_with("Failed to read CSV headers: CSV parse error"));
    assert_eq!(
        RoomImport::find_header_indexes(Err("broken".to_string())),
        Err(DcCmdError::CsvReadHeaders("Failed to read CSV headers: broken".to_string()))
    );
}

#[test]
fn tokens_need_columns() {
    let found = RoomImport::get_header_indexes(&b"name,userPermissions\n".to_vec()).unwrap();
    let tokens = |list: &[&str]| list.iter().map(|t| t.to_string()).collect::<Vec<String>>();
    assert_eq!(
        RoomImport::validate_tokens_against_headers(&found, &tokens(&["name", "userPermission"])),
        Ok(())
    );
    assert_eq!(
        RoomImport::validate_tokens_against_headers(&found, &tokens(&["name", "userPermissions"])),
        Err(DcCmdError::TemplateTokenConflict(
            "'userPermissions' token found but no 'userId' or 'userPermissions' column found in CSV file."
                .to_string()
        ))
    );
    assert_eq!(
        RoomImport::validate_tokens_against_headers(&found, &tokens(&["groupPermissions"])),
        Err(DcCmdError::TemplateTokenConflict(
            "'groupPermissions' token found in template but no 'groupId' or 'groupPermissions' column found in CSV file."
                .to_string()
        ))
    );
    let complete =
        RoomImport::get_header_indexes(&b"name,userId,userPermissions\n".to_vec()).unwrap();
    assert_eq!(
        RoomImport::validate_tokens_against_headers(
            &complete,
            &tokens(&["name", "userPermissions"])
        ),
        Ok(())
    );
}

// ---------------------------------------------------------------- rooms

#[test]
fn test_read_file_and_construct_room_map() {
    let tokens =
        RoomImport::get_template_tokens(ALL_TOKENS).expect("Failed to get template tokens.");

    let rooms_map = RoomImport::read_file_and_construct_room_map(&csv_file(), tokens)
        .expect("Failed to read file and construct room map.");

    let room_1 = rooms_map.get("test").unwrap().clone();
    assert!(room_1.name == "test");
    assert!(room_1.user_permissions.is_some());
    assert!(room_1.group_permissions.is_some());
    assert!(room_1.user_permissions.unwrap().len() == 2);
    assert!(room_1.group_permissions.clone().unwrap().len() == 2);
    assert!(room_1.group_permissions.clone().unwrap()[0]
        .new_group_member_acceptance
        .is_some());
    assert!(
        room_1.group_permissions.clone().unwrap()[0].new_group_member_acceptance.unwrap()
            == GroupMemberAcceptance::AutoAllow
    );
    let room_2 = rooms_map.get("test_2").unwrap().clone();
    assert!(room_2.name == "test_2");
}

#[test]
fn rows_go_to_the_room_with_their_name() {
    let map = RoomImport::read_file_and_construct_room_map(&csv_file(), vec![]).unwrap();
    let names: Vec<&str> = map.rooms().iter().map(|room| room.name.as_str()).collect();
    assert_eq!(names, vec!["test", "test_2", "test_3"]);
    let room = map.get("test").unwrap();
    let users = room.user_permissions.as_ref().unwrap();
    assert_eq!(users[0].id, 2);
    assert_eq!(users[0].permissions, permissions(true));
    assert_eq!(users[1].id, 3);
    assert_eq!(users[1].permissions, permissions(false));
    let groups = room.group_permissions.as_ref().unwrap();
    assert_eq!(groups[1].id, 5);
    assert_eq!(groups[1].new_group_member_acceptance, Some(GroupMemberAcceptance::Pending));
    let last = map.get("test_3").unwrap();
    assert_eq!(last.user_permissions.as_ref().unwrap().len(), 1);
    assert!(last.group_permissions.is_none());
    assert!(last.admin_ids.is_none());
    assert!(map.get("test_4").is_none());
}

#[test]
fn what_cannot_be_read_is_left_out() {
    let read = quoted(&permissions_json(false));
    let text = format!(
        "name,userId,userPermissions\na,x,{read}\na,7,{{}}\na,+8,{read}\na,9,\n,10,{read}\n"
    );
    let map = RoomImport::read_file_and_construct_room_map(&text.into_bytes(), vec![]).unwrap();
    let users = map.get("a").unwrap().user_permissions.as_ref().unwrap();
    assert_eq!(users.len(), 1);
    assert_eq!(users[0].id, 8);
    assert_eq!(map.get("").unwrap().user_permissions.as_ref().unwrap()[0].id, 10);
}

#[test]
fn uneven_rows_are_an_error() {
    let message = match RoomImport::read_file_and_construct_room_map(
        &b"name,x\na,1\nb\n".to_vec(),
        vec![],
    ) {
        Err(DcCmdError::CsvReadRecord(message)) => message,
        other => panic!("{:?}", other),
    };
    assert!(message.starts_with("Failed to read CSV record: CSV error"));
}

#[test]
fn errors_in_rows_name_the_row() {
    let message = match RoomImport::read_file_and_construct_room_map(
        &vec![b'n', b'a', b'm', b'e', b'\n', 0xff, b'\n'],
        vec![],
    ) {
        Err(DcCmdError::CsvReadRecord(message)) => message,
        other => panic!("{:?}", other),
    };
    assert!(
        message.starts_with("Failed to read CSV record: CSV parse error: record 1 (line 2,"),
        "{}",
        message
    );
}

#[test]
fn errors_come_in_order() {
    let fields = Ok(vec!["name".to_string()]);
    let broken = Err("broken".to_string());
    let tokens = vec!["groupPermissions".to_string()];
    assert!(matches!(
        RoomImport::construct_room_map(Err("h".to_string()), broken.clone(), tokens.clone()),
        Err(DcCmdError::CsvReadHeaders(_))
    ));
    assert!(matches!(
        RoomImport::construct_room_map(fields.clone(), broken.clone(), tokens),
        Err(DcCmdError::TemplateTokenConflict(_))
    ));
    assert_eq!(
        RoomImport::construct_room_map(fields, broken, vec![]).unwrap_err(),
        DcCmdError::CsvReadRecord("Failed to read CSV record: broken".to_string())
    );
}

#[test]
fn acceptance_is_read_from_its_word() {
    assert_eq!(
        RoomImport::parse_group_member_acceptance("autoallow"),
        Some(GroupMemberAcceptance::AutoAllow)
    );
    assert_eq!(
        RoomImport::parse_group_member_acceptance("pending"),
        Some(GroupMemberAcceptance::Pending)
    );
    assert_eq!(RoomImport::parse_group_member_acceptance("Pending"), None);
}

#[test]
fn one_room_per_name() {
    let mut map = RoomMap::new();
    for (name, id) in [("a", 1), ("b", 2), ("a", 3)] {
        map.add_row(CsvRow::new(
            name.to_string(),
            Some(id),
            Some(permissions(false)),
            None,
            None,
            Some(permissions(true)),
        ));
    }
    assert_eq!(map.rooms().len(), 2);
    let ids: Vec<u64> =
        map.get("a").unwrap().user_permissions.as_ref().unwrap().iter().map(|u| u.id).collect();
    assert_eq!(ids, vec![1, 3]);
    assert!(map.get("a").unwrap().group_permissions.is_none());
}

// ---------------------------------------------------------------- filling

#[test]
fn test_fill_template_with_data() {
    let tokens =
        RoomImport::get_template_tokens(ALL_TOKENS).expect("Failed to get template tokens.");

    let rooms_map = RoomImport::read_file_and_construct_room_map(&csv_file(), tokens)
        .expect("Failed to read file and construct room map.");

    let contents = RoomImport::fill_template_with_data(rooms_map, ALL_TOKENS.to_string())
        .expect("Failed to fill template with data.");
    let parsed = contents.iter().map(|content| parse_room(content)).collect();
    let mut filled_rooms =
        RoomImport::collect_filled_rooms(parsed).expect("Failed to fill template with data.");

    filled_rooms.sort_by(|a, b| a.name.cmp(&b.name));

    let room_1 = filled_rooms[0].clone();

    assert_eq!(filled_rooms.len(), 3);
    assert_eq!(room_1.clone().name, "test");
    assert_eq!(room_1.clone().user_permissions.unwrap()[0].id, 2);
    assert_eq!(room_1.clone().user_permissions.unwrap()[0].permissions.manage, true);
    assert_eq!(room_1.clone().group_permissions.unwrap()[0].id, 4);
    assert_eq!(room_1.clone().group_permissions.unwrap()[0].permissions.manage, true);
    assert_eq!(
        room_1.clone().group_permissions.unwrap()[0].new_group_member_acceptance,
        Some(GroupMemberAcceptance::AutoAllow)
    );
    assert_eq!(room_1.clone().user_permissions.unwrap().len(), 2);

    assert_eq!(filled_rooms[1].name, "test_2");
    assert_eq!(filled_rooms[2].name, "test_3");
}

fn map_with(row: CsvRow) -> RoomMap {
    let mut map = RoomMap::new();
    map.add_row(row);
    map
}

#[test]
fn names_are_escaped() {
    let name = "a\"b\\c\u{8}\t\n\u{c}\r\u{1}\u{1f}\u{7f}ä€";
    let map = map_with(CsvRow::new(name.to_string(), None, None, None, None, None));
    let contents =
        RoomImport::fill_template_with_data(map, "{\"name\":\"{{ name }}\"}".to_string()).unwrap();
    assert_eq!(
        contents,
        vec!["{\"name\":\"a\\\"b\\\\c\\b\\t\\n\\f\\r\\u0001\\u001f\u{7f}ä€\"}".to_string()]
    );
    assert_eq!(parse_room(&contents[0]).unwrap().name, name);
}

#[test]
fn permissions_are_written_as_json() {
    let row = CsvRow::new(
        "r".to_string(),
        Some(12),
        Some(permissions(true)),
        Some(34),
        Some(GroupMemberAcceptance::Pending),
        Some(permissions(false)),
    );
    let contents = RoomImport::fill_template_with_data(
        map_with(row),
        "\"{{ userPermissions }}\" \"{{ groupPermissions }}\" {{ userPermissions }}".to_string(),
    )
    .unwrap();
    assert_eq!(
        contents[0],
        format!(
            "[{{\"id\":12,\"permissions\":{}}}] [{{\"id\":34,\"newGroupMemberAcceptance\":\"pending\",\"permissions\":{}}}] {{{{ userPermissions }}}}",
            permissions_json(true),
            permissions_json(false)
        )
    );
}

#[test]
fn lists_are_written_with_commas() {
    let mut map = RoomMap::new();
    for id in [1, 2] {
        map.add_row(CsvRow::new(
            "r".to_string(),
            None,
            None,
            Some(id),
            None,
            Some(permissions(false)),
        ));
    }
    let contents =
        RoomImport::fill_template_with_data(map, "\"{{ groupPermissions }}\"".to_string()).unwrap();
    let json = permissions_json(false);
    assert_eq!(
        contents[0],
        format!(
            "[{{\"id\":1,\"newGroupMemberAcceptance\":null,\"permissions\":{json}}},{{\"id\":2,\"newGroupMemberAcceptance\":null,\"permissions\":{json}}}]"
        )
    );
}

#[test]
fn missing_lists_leave_the_token() {
    let map = map_with(CsvRow::new("r".to_string(), None, None, None, None, None));
    let contents = RoomImport::fill_template_with_data(
        map,
        "\"{{ name }}\" \"{{ userPermissions }}\" \"{{name}}\"".to_string(),
    )
    .unwrap();
    assert_eq!(contents, vec!["\"r\" \"{{ userPermissions }}\" \"{{name}}\"".to_string()]);
}

#[test]
fn templates_and_files_together() {
    let contents =
        RoomImport::construct_rooms_from_template_files(&csv_file(), ALL_TOKENS.to_string())
            .unwrap();
    assert_eq!(contents.len(), 3);
    assert_eq!(parse_room(&contents[1]).unwrap().name, "test_2");
    assert!(matches!(
        RoomImport::construct_rooms_from_template_files(&csv_file(), "{}".to_string()),
        Err(DcCmdError::NoTemplateTokensFound(_))
    ));
    assert!(matches!(
        RoomImport::construct_rooms_from_template_files(&vec![], ALL_TOKENS.to_string()),
        Err(DcCmdError::CsvReadHeaders(_))
    ));
}

#[test]
fn the_first_parse_error_counts() {
    let named = |name: &str| {
        let mut room = Room::default();
        room.name = name.to_string();
        room
    };
    let rooms = RoomImport::collect_filled_rooms(vec![Ok(named("a")), Ok(named("b"))]).unwrap();
    assert_eq!(rooms[1].name, "b");
    let error = RoomImport::collect_filled_rooms(vec![
        Ok(named("a")),
        Err("x".to_string()),
        Err("y".to_string()),
    ])
    .unwrap_err();
    assert_eq!(
        error,
        DcCmdError::JsonParseTemplate("Failed to deserialize JSON template: x".to_string())
    );
}

// ---------------------------------------------------------------- rendering

#[test]
fn templates_are_rendered_with_every_row() {
    let data = b"name,quota,name\na,1,x\nb,2,<y>\n".to_vec();
    assert_eq!(
        RoomImport::fill_template(&data, "{{ name }}-{{ quota }}"),
        Some(vec!["x-1".to_string(), "&lt;y&gt;-2".to_string()])
    );
    assert_eq!(RoomImport::fill_template(&b"name\n".to_vec(), "{{ nothing }}"), Some(vec![]));
}

#[test]
fn pieces_of_templates_are_rendered() {
    let data = b"name\na&b\n".to_vec();
    let rendered = |template: &str| RoomImport::fill_template(&data, template).unwrap();
    assert_eq!(rendered("x {{- name -}} y"), vec!["xa&amp;by"]);
    assert_eq!(rendered("{{ \"<}}\" }}"), vec!["&lt;}}"]);
    assert_eq!(
        rendered("{% raw %}{{ a | b }}{% if %}{% endraw %} {{ name }}"),
        vec!["{{ a | b }}{% if %} a&amp;b"]
    );
    assert_eq!(rendered("{# {{ a | b }} #}{{ name }}"), vec!["a&amp;b"]);
    // Blanks at the ends of a raw block are taken away where it has hyphens.
    assert_eq!(rendered("1 {%- raw -%} 2 {%- endraw -%} 3"), vec!["123"]);
}

#[test]
fn what_cannot_be_rendered_gives_nothing() {
    let data = b"name\na\n".to_vec();
    assert_eq!(RoomImport::fill_template(&data, "{{ nothing }}"), None);
    assert_eq!(RoomImport::fill_template(&b"name\na,b\n".to_vec(), "{{ name }}"), None);
    assert_eq!(RoomImport::fill_template(&vec![0xff, b'\n', b'a'], "x"), None);
    assert_eq!(
        RoomImport::collect_rendered(vec![Ok("a".to_string()), Err("b".to_string())]),
        None
    );
}

#[test]
fn plain_templates_have_nothing_but_names() {
    for template in [
        "",
        "a { b } %",
        "{ \"name\": \"{{ name }}\" }",
        "{{a_B}}{{ c }}",
        "{{ a1 }}{{\t_9\r\n}}",
        "}} (1|2)",
        "a {{- name -}} b",
        "{{-name}}{{ name -}}",
        "{{ \"a }} b\" }}{{ 'c' }}{{ `d` }}",
        "{% raw %}{{ a | b }}{% if %}{%- endraw -%} x",
        "{%-raw%}{%endraw%}",
        "{# {{ a | b }} {% if #}{{ name }}",
        "{#- a -#}",
    ] {
        assert!(is_plain(template), "{}", template);
    }
    for template in [
        "{{ name",
        "{{",
        "{{ a }",
        "{{{ a }}",
        "{{ a(b=c) }}",
        "{{ a | b }}",
        "{% a %}",
        "{{ a or a }}",
        "{{ a a }}",
        "{{ 1a }}",
        "{{ }}",
        "{{ a-b }}",
        "{{\u{c}a }}",
        "{{ - a }}",
        "{{ a - }}",
        "{{ \"a }}",
        "{{ \"a\" ~ \"b\" }}",
        "{{ a.b }}",
        "{% raw %}{{ a }}",
        "{% rawa %}{% endraw %}",
        "{% endraw %}",
        "{% raw %}{% endraw %}{% if a %}",
        "{# {{ a }}",
        "{# a #}{{ now() }}",
    ] {
        assert!(!is_plain(template), "{}", template);
    }
}

#[test]
fn contexts_hold_the_values_of_a_row() {
    let contexts = RoomImport::template_contexts(&b"a,b\n1,2\n3,4\n".to_vec()).unwrap();
    assert_eq!(contexts.len(), 2);
    assert_eq!(contexts[1].context().get("b"), Some(&Value::from("4")));
    assert_eq!(contexts[1].context().get("c"), None);
    assert!(RoomImport::template_contexts(&b"a\n1,2\n".to_vec()).is_none());
}
