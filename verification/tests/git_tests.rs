use quill::git::GitContext;

#[test]
fn test_git_context_creation() {
    let context = GitContext {
        org: "testorg".to_string(),
        repo: "testrepo".to_string(),
        branch: "main".to_string(),
    };

    assert_eq!(context.org, "testorg");
    assert_eq!(context.repo, "testrepo");
    assert_eq!(context.branch, "main");
}

#[test]
fn test_context_key() {
    let context = GitContext {
        org: "myorg".to_string(),
        repo: "myrepo".to_string(),
        branch: "feature".to_string(),
    };

    assert_eq!(context.context_key(), "myorg:myrepo:feature");
}

#[test]
fn test_parse_github_ssh_url() {
    let url = "git@github.com:octocat/Hello-World.git";
    let org = GitContext::parse_org_from_url(url);
    assert_eq!(org, Some("octocat".to_string()));
}

#[test]
fn test_parse_github_https_url() {
    let url = "https://github.com/octocat/Hello-World.git";
    let org = GitContext::parse_org_from_url(url);
    assert_eq!(org, Some("octocat".to_string()));
}

#[test]
fn test_parse_invalid_url() {
    let url = "not-a-git-url";
    let org = GitContext::parse_org_from_url(url);
    assert_eq!(org, None);
}

#[test]
fn test_parse_other_host_url() {
    let url = "https://gitlab.example.com/someorg/somerepo.git";
    let org = GitContext::parse_org_from_url(url);
    assert_eq!(org, Some("someorg".to_string()));
}

#[test]
fn test_parse_url_without_path() {
    let url = "https://gitlab.example.com";
    let org = GitContext::parse_org_from_url(url);
    assert_eq!(org, None);
}
