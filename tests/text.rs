use editor::text::Text;


#[test]
fn test_display() {
    let t : Text = Text::new("Some text");
    assert_eq!(t.get_text(), "Some text");
}

#[test]
fn test_get_line_count() {
    let t : Text = Text::new("Some text");
    let t2 : Text = Text::new("Some\ntext");
    let t3 : Text = Text::new("Some\ntext\n");
    assert_eq!(t.line_count(), 1);
    assert_eq!(t2.line_count(), 2);
    assert_eq!(t3.line_count(), 3);
}

#[test]
fn test_size_of_aeoeaa_string() {
    let t : Text = Text::new("æøå");
    assert_eq!(t.size(),3);
}

#[test]
fn test_append_character() {
    let mut t : Text = Text::new("Some text");

    match t.write_char(".", 9) {
        Ok(_) => (),
        Err(e) => println!("{}", e),
    }

    assert_eq!(t.get_text(), "Some text.");
    assert_eq!(t.get_line_length(0), t.get_text().chars().count());
}

#[test]
fn test_insert_characters() {
    let mut t : Text = Text::new("ometxt.");

    match t.write_char("S", 0) {
        Ok(_) => (),
        Err(e) => println!("{}", e),
    }

    assert_eq!(t.get_text(), "Sometxt.");
    assert_eq!(t.get_line_length(0), t.get_text().chars().count());

    match t.write_char(" ", 4) {
        Ok(_) => (),
        Err(e) => println!("{}", e),
    }

    assert_eq!(t.get_text(), "Some txt.");
    assert_eq!(t.get_line_length(0), t.get_text().chars().count());

    match t.write_char("e", 6) {
        Ok(_) => (),
        Err(e) => println!("{}", e),
    }

    assert_eq!(t.get_text(), "Some text.");
    assert_eq!(t.get_line_length(0), t.get_text().chars().count());
}

#[test]
fn test_insert_ae() {
    let mut t : Text = Text::new(", ");

    match t.write_char("æ", 1) {
        Ok(_) => (),
        Err(e) => println!("{}", e),
    }

    assert_eq!(t.get_text(), ",æ ");
    assert_eq!(t.get_line_length(0), t.get_text().chars().count());
    }

#[test]
fn test_insert_after_ae() {
    let mut t : Text = Text::new("æ, ");

    match t.write_char("v",1) {
        Ok(_) => (),
        Err(e) => println!("{}", e),
    }

    assert_eq!(t.get_text(), "æv, ");
    assert_eq!(t.get_line_length(0), t.get_text().chars().count());
}

#[test]
fn test_insert_aeoeaa() {
    let mut t : Text = Text::new("Æ, ");

    match t.write_char("v", 1) {
        Ok(_) => (),
        Err(e) => println!("{}", e),
    }

    assert_eq!(t.get_text(), "Æv, ");
    assert_eq!(t.get_line_length(0), t.get_text().chars().count());

    match t.write_char("å", 4) {
        Ok(_) => (),
        Err(e) => println!("{}", e),
    }

    assert_eq!(t.get_text(), "Æv, å");
    assert_eq!(t.get_line_length(0), t.get_text().chars().count());

    match t.write_char("ø", 5) {
        Ok(_) => (),
        Err(e) => println!("{}", e),
    }

    assert_eq!(t.get_text(), "Æv, åø");
    assert_eq!(t.get_line_length(0), t.get_text().chars().count());

    match t.write_char("æ", 6) {
        Ok(_) => (),
        Err(e) => println!("{}", e),
    }

    assert_eq!(t.get_text(), "Æv, åøæ");
    assert_eq!(t.get_line_length(0), t.get_text().chars().count());

    match t.write_char("v", 1) {
        Ok(_) => (),
        Err(e) => println!("{}", e),
    }

}

#[test]
fn test_pop_character() {
    let mut t : Text = Text::new("Some text.");

    match t.remove_at(9) {
        Ok(_) => (),
        Err(e) => println!("{}", e),
    }

    assert_eq!(t.get_text(), "Some text");
    assert_eq!(t.get_line_length(0), t.get_text().chars().count());
}

#[test]
fn test_remove_characters() {
    let mut t : Text = Text::new("Some text.");

    match t.remove_at(0) {
        Ok(_) => (),
        Err(e) => println!("{}", e),
    }

    assert_eq!(t.get_text(), "ome text.");
    assert_eq!(t.get_line_length(0), t.get_text().chars().count());

    match t.remove_at(2) {
        Ok(_) => (),
        Err(e) => println!("{}", e),
    }

    assert_eq!(t.get_text(), "om text.");
    assert_eq!(t.get_line_length(0), t.get_text().chars().count());

    match t.remove_at(4) {
        Ok(_) => (),
        Err(e) => println!("{}", e),
    }

    assert_eq!(t.get_text(), "om txt.");
    assert_eq!(t.get_line_length(0), t.get_text().chars().count());
}
#[test]
fn test_pop_newline() {
    let mut t : Text = Text::new("Some\ntext.");

    match t.remove_at(4) {
        Ok(_) => (),
        Err(e) => println!("{}", e),
    }

    assert_eq!(t.get_text(), "Sometext.");
    assert_eq!(t.get_line_length(0), t.get_text().chars().count());
    assert_eq!(t.get_line_length(1), 0);
}

#[test]
fn test_line_length_getter() {
    let t : Text = Text::new("This\nIs\nSome\nText.");

    assert_eq!(t.get_line_length(0),4);
    assert_eq!(t.get_line_length(1),2);
    assert_eq!(t.get_line_length(2),4);
    assert_eq!(t.get_line_length(3),5);
    assert_eq!(t.get_line_length(4),0);
}

#[test]
fn test_line_length_getter_aeoeaa() {
    let t : Text = Text::new("Han bærer\nto bøker\npå føllen\nsin hjemover.");

    assert_eq!(t.get_line_length(0),9);
    assert_eq!(t.get_line_length(1),8);
    assert_eq!(t.get_line_length(2),9);
    assert_eq!(t.get_line_length(3),13);
    assert_eq!(t.get_line_length(4),0);
}

#[test]
fn test_check_line_count() {
    let t : Text = Text::new("This\nIs\nSome\nText.");

    assert_eq!(t.find_line_number(0),Ok(1));
    assert_eq!(t.find_line_number(1),Ok(1));
    assert_eq!(t.find_line_number(2),Ok(1));
    assert_eq!(t.find_line_number(3),Ok(1));
    assert_eq!(t.find_line_number(4),Ok(1));
    assert_eq!(t.find_line_number(5),Ok(2));
    assert_eq!(t.find_line_number(6),Ok(2));
    assert_eq!(t.find_line_number(7),Ok(2));
    assert_eq!(t.find_line_number(8),Ok(3));
    assert_eq!(t.find_line_number(9),Ok(3));
    assert_eq!(t.find_line_number(10),Ok(3));
    assert_eq!(t.find_line_number(11),Ok(3));
    assert_eq!(t.find_line_number(12),Ok(3));
    assert_eq!(t.find_line_number(13),Ok(4));
    assert_eq!(t.find_line_number(14),Ok(4));
    assert_eq!(t.find_line_number(15),Ok(4));
}
#[test]
fn test_get_index_start_of_line() {
    let t : Text = Text::new("This\nIs\nSome\nText.");

    assert_eq!(t.get_string_index(0,0),0);
    assert_eq!(t.get_string_index(1,0),5);
    assert_eq!(t.get_string_index(2,0),8);
    assert_eq!(t.get_string_index(3,0),13);
}
#[test]
fn test_get_index_middle_of_line() {
    let t : Text = Text::new("This\nIs\nSome\nText.");

    assert_eq!(t.get_string_index(0,1),1);
    assert_eq!(t.get_string_index(1,1),6);
    assert_eq!(t.get_string_index(2,2),10);
    assert_eq!(t.get_string_index(3,3),16);
}
#[test]
fn test_get_index_end_of_line() {
    let t : Text = Text::new("This\nIs\nSome\nText.");

    assert_eq!(t.get_string_index(0,4),4);
    assert_eq!(t.get_string_index(1,2),7);
    assert_eq!(t.get_string_index(2,4),12);
    assert_eq!(t.get_string_index(3,5),18);
}

#[test]
fn test_get_index_start_of_line_aeoeaa() {
    let t : Text = Text::new("rårr\nbø\nbørs\nbønde");

    assert_eq!(t.get_string_index(0,0),0);
    assert_eq!(t.get_string_index(1,0),5);
    assert_eq!(t.get_string_index(2,0),8);
    assert_eq!(t.get_string_index(3,0),13);
}
#[test]
fn test_get_index_middle_of_line_aeoeaa() {
    let t : Text = Text::new("rårr\nbø\nbørs\nbønde");

    assert_eq!(t.get_string_index(0,1),1);
    assert_eq!(t.get_string_index(1,1),6);
    assert_eq!(t.get_string_index(2,2),10);
    assert_eq!(t.get_string_index(3,3),16);
}
#[test]
fn test_get_index_end_of_line_aeoeaa() {
    let t : Text = Text::new("rårr\nbø\nbørs\nbønde");

    assert_eq!(t.get_string_index(0,4),4);
    assert_eq!(t.get_string_index(1,2),7);
    assert_eq!(t.get_string_index(2,4),12);
    assert_eq!(t.get_string_index(3,5),18);
}

#[test]
fn test_get_line() {
    let t : Text = Text::new("This\nIs\nSome\nText.");
    
    assert_eq!(t.get_line(0), "This");
    assert_eq!(t.get_line(1), "Is");
    assert_eq!(t.get_line(2), "Some");
    assert_eq!(t.get_line(3), "Text.");
}
