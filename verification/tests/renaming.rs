use zdt::renaming::{rename_bindings, rename_references, References, Renames};

fn renames() -> Renames {
    let mut renames = Renames::new();
    renames.insert("box".to_owned(), "box2".to_owned());
    renames.insert("arr".to_owned(), "arr2".to_owned());
    renames
}

fn nothing() -> References {
    References {
        container_id: None,
        frame_id: None,
        start_binding: None,
        end_binding: None,
        bound_elements: None,
        group_ids: None,
    }
}

#[test]
fn a_renamed_name_is_found_and_a_stranger_is_not() {
    let renames = renames();
    assert_eq!(renames.get("box"), Some("box2".to_owned()));
    assert_eq!(renames.get("elsewhere"), None);
}

#[test]
fn an_arrow_bound_inside_the_copy_follows_the_copy() {
    let refs = References { start_binding: Some(Some("box".to_owned())), ..nothing() };
    let out = rename_references(&refs, &renames());
    assert_eq!(out.start_binding, Some(Some("box2".to_owned())));
    assert_eq!(out.end_binding, None);
}

#[test]
fn an_arrow_bound_to_something_left_behind_comes_across_unbound() {
    let refs = References {
        start_binding: Some(Some("left-behind".to_owned())),
        end_binding: Some(None),
        ..nothing()
    };
    let out = rename_references(&refs, &renames());
    assert_eq!(out.start_binding, Some(None));
    assert_eq!(out.end_binding, Some(None));
}

#[test]
fn a_container_and_frame_follow_only_when_copied() {
    let refs = References {
        container_id: Some("box".to_owned()),
        frame_id: Some("frame-left-behind".to_owned()),
        ..nothing()
    };
    let out = rename_bindings(&refs, &renames());
    assert_eq!(out.container_id, Some("box2".to_owned()));
    assert_eq!(out.frame_id, None);
}

#[test]
fn bound_entries_that_point_at_nothing_copied_are_dropped() {
    let refs = References {
        bound_elements: Some(vec![
            Some("arr".to_owned()),
            None,
            Some("gone".to_owned()),
            Some("box".to_owned()),
        ]),
        ..nothing()
    };
    let out = rename_bindings(&refs, &renames());
    assert_eq!(
        out.bound_elements,
        Some(vec![(0, "arr2".to_owned()), (3, "box2".to_owned())])
    );
    assert_eq!(out.group_ids, None);
}

#[test]
fn every_group_in_a_paste_is_a_new_one() {
    let refs = References {
        group_ids: Some(vec![Some("g1".to_owned()), None, Some("g2".to_owned())]),
        ..nothing()
    };
    let out = rename_references(&refs, &renames());
    assert_eq!(
        out.group_ids,
        Some(vec!["g1-pasted".to_owned(), "g2-pasted".to_owned()])
    );
    // A stamp out of a library leaves the groups to the stamp.
    assert_eq!(rename_bindings(&refs, &renames()).group_ids, None);
}
