use icfpc2023::api::{
    join_problem_chunks, local_submission_id, submission_from_db, submission_id_from_reply, ChunkError,
    Scoreboard, ScoreboardEntry, SubmissionStatus,
};
use icfpc2023::candidate_tree::set_oyako;
use icfpc2023::minmax::SetMinMax;
use icfpc2023::paths::{
    number_from_file_name, order_by_number, problem_id_from_path, try_problem_id_from_path,
};
use icfpc2023::problem::musicians_by_instrument;
use icfpc2023::version::Version;

#[test]
fn version_follows_problem_id() {
    assert_eq!(Version::from_problem_id(1), Version::One);
    assert_eq!(Version::from_problem_id(55), Version::One);
    assert_eq!(Version::from_problem_id(56), Version::Two);
    assert_eq!(Version::from_problem_id(-3), Version::One);
}

#[test]
fn setmin_setmax() {
    let mut x: i64 = 5;
    assert!(x.setmin(3));
    assert_eq!(x, 3);
    assert!(!x.setmin(3));
    assert!(!x.setmin(4));
    assert!(x.setmax(10));
    assert_eq!(x, 10);
    assert!(!x.setmax(10));
    let mut u: usize = 7;
    assert!(!u.setmax(2));
    assert_eq!(u, 7);
}

#[test]
fn status_display() {
    assert_eq!(SubmissionStatus::Processing.display_string(), "Pending");
    assert_eq!(SubmissionStatus::Success(1502807685).display_string(), "1502807685");
    assert_eq!(SubmissionStatus::Success(0).display_string(), "0");
    assert_eq!(
        SubmissionStatus::Failure("error message".to_string()).display_string(),
        "error message"
    );
}

#[test]
fn scoreboard_accessors() {
    let e = ScoreboardEntry::new("unagi".to_string(), 42);
    let b = Scoreboard::new(true, vec![e.clone()], "2023-07-07".to_string());
    assert!(b.frozen());
    assert_eq!(b.entries()[0].username(), "unagi");
    assert_eq!(b.entries()[0].score(), 42);
    assert_eq!(b.updated_at(), "2023-07-07");
}

#[test]
fn parent_child_links() {
    let mut parent = vec![vec![]; 3];
    let mut child = vec![vec![]; 3];
    set_oyako(&mut parent, &mut child, 0, 2);
    set_oyako(&mut parent, &mut child, 1, 2);
    assert_eq!(child, vec![vec![2], vec![2], vec![]]);
    assert_eq!(parent, vec![vec![], vec![], vec![0, 1]]);
}

#[test]
fn problem_ids_from_paths() {
    assert_eq!(problem_id_from_path("problems/problem-12.json"), 12);
    assert_eq!(problem_id_from_path("../Dropbox/ICFPC2023/problems-90.json"), 90);
    assert_eq!(try_problem_id_from_path("problem-7.json.bak"), Some(7));
    assert_eq!(try_problem_id_from_path("problem-x.json"), None);
    assert_eq!(try_problem_id_from_path("problem-99999999999.json"), None);
}

#[test]
fn numbers_from_file_names() {
    assert_eq!(number_from_file_name("problem-12.json"), Some(12));
    assert_eq!(number_from_file_name("out-2-64a.json"), None);
    assert_eq!(number_from_file_name("problem12.json"), None);
    assert_eq!(number_from_file_name("a.b-3"), None);
    assert_eq!(number_from_file_name("p--4.json"), Some(-4));
}

#[test]
fn numbers_at_the_edges_of_i32() {
    assert_eq!(number_from_file_name("p-2147483647.json"), Some(i32::MAX));
    assert_eq!(number_from_file_name("p-2147483648.json"), None);
    assert_eq!(number_from_file_name("p--2147483648.json"), Some(i32::MIN));
    assert_eq!(number_from_file_name("p--2147483649.json"), None);
    assert_eq!(number_from_file_name("p-+15.json"), Some(15));
    assert_eq!(number_from_file_name("p-+.json"), None);
    assert_eq!(number_from_file_name("p--.json"), None);
    assert_eq!(number_from_file_name("p-.json"), None);
    assert_eq!(number_from_file_name("p-0007.json"), Some(7));
    assert_eq!(number_from_file_name("p-99999999999999999999.json"), None);
}

#[test]
fn version_from_pillars() {
    assert_eq!(Version::from_pillar_count(0), Version::One);
    assert_eq!(Version::from_pillar_count(3), Version::Two);
}

#[test]
fn musicians_grouped_by_instrument() {
    let groups = musicians_by_instrument(&vec![0, 1, 0, 2, 1], 4);
    assert_eq!(groups, vec![vec![0, 2], vec![1, 4], vec![3], vec![]]);
}

#[test]
fn problem_chunks_join() {
    let chunks = vec![(0usize, "{\"a\":".to_string()), (1, "1}".to_string())];
    assert_eq!(join_problem_chunks(7, &chunks), Ok("{\"a\":1}".to_string()));
    assert_eq!(join_problem_chunks(7, &vec![]), Err(ChunkError::NotFound { problem_id: 7 }));
    let shuffled = vec![(1usize, "1}".to_string()), (0, "{".to_string())];
    assert_eq!(join_problem_chunks(7, &shuffled), Err(ChunkError::IndexMismatch));
}

#[test]
fn submission_rows() {
    let r = submission_from_db(12, None, 3, Some(99), Some("late".to_string()), None, "2023-07-08 10:00:00".to_string());
    assert_eq!(r.submission._id, "12");
    assert_eq!(r.submission.problem_id, 3);
    assert_eq!(r.submission.score, SubmissionStatus::Success(99));
    assert_eq!(r.submission.user_id, None);
    assert_eq!(r.contents, "");
    let r = submission_from_db(12, Some("abc".to_string()), 3, None, Some("bad".to_string()), Some("{}".to_string()), "t".to_string());
    assert_eq!(r.submission._id, "abc");
    assert_eq!(r.submission.score, SubmissionStatus::Failure("bad".to_string()));
    assert_eq!(r.contents, "{}");
    let r = submission_from_db(1, None, 3, None, None, None, "t".to_string());
    assert_eq!(r.submission.score, SubmissionStatus::Processing);
}

#[test]
fn submission_ids() {
    assert_eq!(local_submission_id("42"), 42);
    assert_eq!(local_submission_id("64a93f468c4efca8cb0a9c65"), 0);
    assert_eq!(submission_id_from_reply("\"64a93f\""), "64a93f");
    assert_eq!(submission_id_from_reply("\"\"x\"\""), "x");
    assert_eq!(submission_id_from_reply("\"\"\""), "");
    assert_eq!(submission_id_from_reply("plain"), "plain");
}

#[test]
fn paths_ordered_by_number() {
    assert_eq!(order_by_number(&vec![3, 1, 2, 1]), vec![1, 3, 2, 0]);
    assert_eq!(order_by_number(&vec![]), Vec::<usize>::new());
    assert_eq!(order_by_number(&vec![5, 5, 5]), vec![0, 1, 2]);
}
