use niri_taskbar::niri::{Snapshot, Workspace};
use niri_taskbar::output::Filter;
use niri_taskbar::workspaces::{label, Instance, Rendering, Step};

fn workspace(id: u64, idx: u8, output: &str) -> Workspace {
    Workspace {
        id,
        idx,
        name: None,
        output: Some(output.to_string()),
        is_urgent: false,
        is_active: false,
        is_focused: false,
    }
}

fn render(instance: &mut Instance, workspaces: Vec<Workspace>, filter: &Filter) -> Rendering {
    let labels = workspaces.iter().map(label).collect();
    let snapshot = Snapshot { windows: vec![], workspaces };
    instance.render(&snapshot, &labels, filter)
}

fn told(steps: &[Step<String>]) -> Vec<String> {
    steps
        .iter()
        .map(|step| match step {
            Step::New { id, label } => format!("new {id} {label}"),
            Step::Label { id, label } => format!("label {id} {label}"),
            Step::Update { workspace, id } => format!("update {workspace} {id}"),
            Step::Remove { id } => format!("remove {id}"),
        })
        .collect()
}

#[test]
fn workspaces_are_sorted_and_filtered() {
    let mut instance = Instance::new();
    let all = vec![workspace(7, 2, "A"), workspace(9, 1, "A"), workspace(8, 1, "A"), workspace(1, 1, "B")];
    let r = render(&mut instance, all, &Filter::Only("A".to_string()));
    assert_eq!(
        told(&r.steps),
        vec!["new 8 1", "update 2 8", "new 9 1", "update 1 9", "new 7 2", "update 0 7"]
    );
    assert_eq!(r.target, None);
}

#[test]
fn labels_change_and_buttons_go() {
    let mut instance = Instance::new();
    render(&mut instance, vec![workspace(1, 1, "A"), workspace(2, 2, "A"), workspace(3, 3, "A")], &Filter::ShowAll);
    let r = render(&mut instance, vec![workspace(2, 1, "A")], &Filter::ShowAll);
    assert_eq!(told(&r.steps), vec!["label 2 1", "update 0 2", "remove 1", "remove 3"]);
    let r = render(&mut instance, vec![workspace(2, 1, "A")], &Filter::ShowAll);
    assert_eq!(told(&r.steps), vec!["update 0 2"]);
}

#[test]
fn the_indicator_prefers_the_focused_workspace() {
    let mut instance = Instance::new();
    let mut all = vec![workspace(1, 1, "A"), workspace(2, 2, "A"), workspace(3, 3, "B")];
    all[0].is_active = true;
    all[2].is_active = true;
    assert_eq!(render(&mut instance, all, &Filter::ShowAll).target, Some(1));
    let mut all = vec![workspace(1, 1, "A"), workspace(2, 2, "A"), workspace(3, 3, "B")];
    all[0].is_active = true;
    all[2].is_active = true;
    all[2].is_focused = true;
    assert_eq!(render(&mut instance, all, &Filter::ShowAll).target, Some(3));
}

#[test]
fn workspaces_go_by_their_name_or_their_index() {
    let mut named = workspace(1, 12, "A");
    assert_eq!(label(&named), "12");
    named.name = Some("mail".to_string());
    assert_eq!(label(&named), "mail");
}
