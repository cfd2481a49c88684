use hollowatlas::atlas::recent::{
    default_project_version, default_show_bounds, project_display_name, record_recent_project, trim_text,
    PersistedRecentProject, RECENT_PROJECTS_LIMIT,
};

fn entry(path: &str, at: u64) -> PersistedRecentProject {
    PersistedRecentProject { path: path.to_string(), name: path.to_string(), last_opened_at: at }
}

fn paths(list: &[PersistedRecentProject]) -> Vec<&str> {
    list.iter().map(|p| p.path.as_str()).collect()
}

#[test]
fn project_file_defaults() {
    assert_eq!(default_project_version(), 1);
    assert!(default_show_bounds());
}

#[test]
fn display_names_use_the_file_stem() {
    assert_eq!(project_display_name("/home/me/game.hollow"), "game");
    assert_eq!(project_display_name("levels/.hidden"), ".hidden");
    assert_eq!(project_display_name("archive.tar.gz"), "archive.tar");
    assert_eq!(project_display_name("/"), "/");
    assert_eq!(project_display_name(".."), "..");
}

#[test]
fn trim_drops_white_space_at_both_ends() {
    assert_eq!(trim_text("  a b\t\n"), vec!['a', ' ', 'b']);
    assert_eq!(trim_text(" \u{3000} "), Vec::<char>::new());
    assert_eq!(trim_text("x"), vec!['x']);
}

#[test]
fn recording_moves_the_project_to_the_front_once() {
    let list = vec![entry("/a.hollow", 1), entry("/b.hollow", 2), entry("/a.hollow", 3)];
    let updated = record_recent_project(list, "  /b.hollow ", 99);
    assert_eq!(paths(&updated), vec!["/b.hollow", "/a.hollow", "/a.hollow"]);
    assert_eq!(updated[0].name, "b");
    assert_eq!(updated[0].last_opened_at, 99);
    assert_eq!(updated[1].last_opened_at, 1);
    assert_eq!(updated[2].last_opened_at, 3);
}

#[test]
fn recording_a_blank_path_keeps_the_list() {
    let list = vec![entry("/a.hollow", 1)];
    let updated = record_recent_project(list, " \t ", 5);
    assert_eq!(paths(&updated), vec!["/a.hollow"]);
    assert_eq!(updated[0].last_opened_at, 1);
}

#[test]
fn recording_keeps_at_most_the_limit() {
    let mut list = Vec::new();
    for i in 0..RECENT_PROJECTS_LIMIT {
        list.push(entry(&format!("/p{i}.hollow"), i as u64));
    }
    let updated = record_recent_project(list, "/new.hollow", 100);
    assert_eq!(updated.len(), 12);
    assert_eq!(updated[0].path, "/new.hollow");
    assert_eq!(updated[0].name, "new");
    assert_eq!(updated[11].path, "/p10.hollow");
}
