//! Unit tests for the chapter structure, the fence computation, and the
//! repository-name extraction.

use src2md::chapter::Chapter;
use src2md::fence::calculate_fence;
use src2md::git_url::repo_name_from_url;

#[test]
fn test_repo_name_from_https_url() {
    assert_eq!(
        repo_name_from_url("https://github.com/user/myrepo.git"),
        Some("myrepo".to_string())
    );
    assert_eq!(
        repo_name_from_url("https://github.com/user/myrepo"),
        Some("myrepo".to_string())
    );
    assert_eq!(
        repo_name_from_url("https://gitlab.com/group/subgroup/project.git"),
        Some("project".to_string())
    );
}

#[test]
fn test_repo_name_from_ssh_url() {
    assert_eq!(
        repo_name_from_url("git@github.com:user/myrepo.git"),
        Some("myrepo".to_string())
    );
    assert_eq!(
        repo_name_from_url("git@github.com:user/myrepo"),
        Some("myrepo".to_string())
    );
}

#[test]
fn test_repo_name_invalid_url() {
    assert_eq!(repo_name_from_url("not-a-url"), None);
    assert_eq!(repo_name_from_url(""), None);
}

#[test]
fn test_repo_name_extraction() {
    assert_eq!(
        repo_name_from_url("https://github.com/user/repo.git"),
        Some("repo".to_string())
    );
    assert_eq!(
        repo_name_from_url("https://github.com/user/repo"),
        Some("repo".to_string())
    );
    assert_eq!(
        repo_name_from_url("git@github.com:user/repo.git"),
        Some("repo".to_string())
    );
}

#[test]
fn test_chapter_insert_single_file() {
    let mut chapter = Chapter::new();
    chapter.insert(b"file.rs");
    assert_eq!(chapter.files.len(), 1);
    assert!(chapter.children.is_empty());
}

#[test]
fn test_chapter_insert_nested_file() {
    let mut chapter = Chapter::new();
    chapter.insert(b"src/main.rs");
    assert!(chapter.files.is_empty());
    assert!(chapter.child(b"src").is_some());
    assert_eq!(chapter.child(b"src").unwrap().files.len(), 1);
}

#[test]
fn test_chapter_insert_deeply_nested() {
    let mut chapter = Chapter::new();
    chapter.insert(b"src/utils/helpers.rs");
    assert!(chapter.child(b"src").is_some());
    assert!(chapter.child(b"src").unwrap().child(b"utils").is_some());
    assert_eq!(
        chapter.child(b"src").unwrap().child(b"utils").unwrap().files.len(),
        1
    );
}

#[test]
fn test_chapter_has_content() {
    let mut chapter = Chapter::new();
    assert!(!chapter.has_content());

    chapter.insert(b"file.rs");
    assert!(chapter.has_content());
}

#[test]
fn test_chapter_has_content_nested() {
    let mut chapter = Chapter::new();
    chapter.insert(b"src/main.rs");
    assert!(chapter.has_content());
    assert!(chapter.child(b"src").unwrap().has_content());
}

#[test]
fn test_calculate_fence_basic() {
    assert_eq!(calculate_fence(b"no backticks"), b"```".to_vec());
    assert_eq!(calculate_fence(b"```rust\ncode\n```"), b"````".to_vec());
    assert_eq!(calculate_fence(b"````\ncode\n````"), b"`````".to_vec());
}

#[test]
fn test_calculate_fence_single_backticks() {
    // Single backticks (inline code) should still result in minimum 3-backtick fence
    assert_eq!(calculate_fence(b"`inline code`"), b"```".to_vec());
}

#[test]
fn test_calculate_fence_double_backticks() {
    // Double backticks should still result in minimum 3-backtick fence
    assert_eq!(calculate_fence(b"``double``"), b"```".to_vec());
}
